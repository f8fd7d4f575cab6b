//! Repairing pieces without a valid outline: the edge that helps most is
//! changed, an invalid piece at a time.

use crate::decoys::signed;
use crate::edges::{joins, lemma_edge_back, unset, Edge};
use crate::generator::GeneratorError;
use crate::geometry::{is_piece_valid, judged, lemma_memo_grew, memo_grew, valid_in, GeomMemo};
use crate::grid::{links_in_range, links_mutual, magnitude, opposite, opposite_dir, Links};
use crate::id_plan::{differ_at, holds_id, lemma_other_edge, lemma_rim_kept, part, reversed, rim_zero, same_edge};
use crate::orient::{rate_pair, rated, set_edge, shows, Profile};
use crate::rng::{gave_coin, gave_item, next_coin, next_item};
use rand::rngs::StdRng;
use vstd::prelude::*;

verus! {

/// Whether the two sides of every inner edge cancel, and the rim is zero.
pub open spec fn cancels(links: Seq<[Option<usize>; 6]>, rows: Seq<[i32; 6]>) -> bool {
    &&& rows.len() == links.len()
    &&& forall|e: Edge| #[trigger] joins(links, e) ==> shows(rows, e, rows[e.0 as int]@[e.2 as int] as int)
    &&& rim_zero(links, rows)
}

/// Whether the value of an edge can have become `after`: its id is the same,
/// or both are core ids.
pub open spec fn kin(core: Seq<i32>, before: i32, after: i32) -> bool {
    magnitude(before) == magnitude(after) || (core.contains(magnitude(before) as i32) && core.contains(
        magnitude(after) as i32,
    ))
}

/// Whether every edge has kept its id, or has another core id in place of a
/// core id.
pub open spec fn keeps_ids(links: Seq<[Option<usize>; 6]>, core: Seq<i32>, before: Seq<[i32; 6]>, after: Seq<[i32; 6]>) -> bool {
    forall|e: Edge| #[trigger]
        joins(links, e) ==> kin(core, before[e.0 as int]@[e.2 as int], after[e.0 as int]@[e.2 as int])
}

/// Whether every value can be negated.
pub open spec fn negatable(rows: Seq<[i32; 6]>) -> bool {
    forall|c: int, d: int| 0 <= c < rows.len() && 0 <= d < 6 ==> (#[trigger] rows[c]@[d]) > i32::MIN
}

proof fn lemma_keeps_ids_step(
    links: Seq<[Option<usize>; 6]>,
    core: Seq<i32>,
    start: Seq<[i32; 6]>,
    before: Seq<[i32; 6]>,
    after: Seq<[i32; 6]>,
    edge: Edge,
    value: i32,
)
    requires
        links.len() <= usize::MAX,
        links_in_range(links),
        links_mutual(links),
        joins(links, edge),
        cancels(links, before),
        negatable(before),
        keeps_ids(links, core, start, before),
        differ_at(links, before, after, edge),
        shows(after, edge, value as int),
        value > i32::MIN,
        kin(core, before[edge.0 as int]@[edge.2 as int], value),
    ensures
        cancels(links, after),
        negatable(after),
        keeps_ids(links, core, start, after),
{
    lemma_edge_back(links, edge);
    lemma_rim_kept(links, before, after, edge);
    let back = reversed(edge);
    assert(opposite(opposite(edge.2 as int)) == edge.2);
    assert forall|e: Edge| #[trigger] joins(links, e) implies shows(after, e, after[e.0 as int]@[e.2 as int] as int)
        && kin(core, start[e.0 as int]@[e.2 as int], after[e.0 as int]@[e.2 as int]) by {
        assert(shows(before, e, before[e.0 as int]@[e.2 as int] as int));
        assert(kin(core, start[e.0 as int]@[e.2 as int], before[e.0 as int]@[e.2 as int]));
        if same_edge(e, edge) {
            assert(shows(before, edge, before[edge.0 as int]@[edge.2 as int] as int));
        } else {
            lemma_other_edge(links, before, after, edge, e);
        }
    }
    assert forall|c: int, d: int| 0 <= c < after.len() && 0 <= d < 6 implies (#[trigger] after[c]@[d]) > i32::MIN by {
        if !(c == edge.0 && d == edge.2) && !(c == edge.1 && d == opposite(edge.2 as int)) {
            assert(after[c]@[d] == before[c]@[d]);
        }
    }
}

/// Whether the marks tell of each piece whether it is valid.
pub open spec fn marks_valid<G>(memo: Map<Seq<i32>, Option<G>>, rows: Seq<[i32; 6]>, valid: Seq<bool>) -> bool {
    &&& valid.len() == rows.len()
    &&& forall|c: int|
        0 <= c < rows.len() ==> judged(memo, (#[trigger] rows[c])@) && valid[c] == valid_in(memo, rows[c]@)
}

proof fn lemma_marks_kept<G, B: Fn(&[i32; 6]) -> Option<G>>(
    before: Map<Seq<i32>, Option<G>>,
    after: Map<Seq<i32>, Option<G>>,
    build: B,
    rows: Seq<[i32; 6]>,
    valid: Seq<bool>,
)
    requires
        memo_grew(before, after, build),
        marks_valid(before, rows, valid),
    ensures
        marks_valid(after, rows, valid),
{
}

/// Judges every piece.
fn judge_all<G, B: Fn(&[i32; 6]) -> Option<G>>(rows: &Vec<[i32; 6]>, memo: &mut GeomMemo<G>, build: &B) -> (valid: Vec<bool>)
    requires
        old(memo).wf(),
        forall|canon: &[i32; 6]| #[trigger] build.requires((canon,)),
    ensures
        final(memo).wf(),
        final(memo).edge_meta == old(memo).edge_meta,
        memo_grew(old(memo).cache@, final(memo).cache@, *build),
        marks_valid(final(memo).cache@, rows@, valid@),
{
    let mut valid: Vec<bool> = Vec::with_capacity(rows.len());
    let ghost start = memo.cache@;
    for c in 0..rows.len()
        invariant
            memo.wf(),
            memo.edge_meta == old(memo).edge_meta,
            start == old(memo).cache@,
            forall|canon: &[i32; 6]| #[trigger] build.requires((canon,)),
            memo_grew(start, memo.cache@, *build),
            valid.len() == c,
            forall|k: int|
                0 <= k < c ==> judged(memo.cache@, (#[trigger] rows@[k])@) && valid@[k] == valid_in(
                    memo.cache@,
                    rows@[k]@,
                ),
    {
        let ghost before = memo.cache@;
        let ok: bool = is_piece_valid(&rows[c], memo, build);
        proof {
            lemma_memo_grew(start, before, memo.cache@, *build);
        }
        valid.push(ok);
    }
    valid
}

/// The cells whose piece is not valid, in order.
pub open spec fn invalid_below(valid: Seq<bool>, n: int) -> Seq<usize>
    decreases n,
{
    if n <= 0 {
        Seq::empty()
    } else if valid[n - 1] {
        invalid_below(valid, n - 1)
    } else {
        invalid_below(valid, n - 1).push((n - 1) as usize)
    }
}

proof fn lemma_invalid_below(valid: Seq<bool>, n: int)
    requires
        0 <= n <= valid.len() <= usize::MAX,
    ensures
        invalid_below(valid, n).len() == unset(valid.take(n)),
        forall|i: int| 0 <= i < invalid_below(valid, n).len() ==> (#[trigger] invalid_below(valid, n)[i]) < n,
    decreases n,
{
    if n > 0 {
        lemma_invalid_below(valid, n - 1);
        assert(valid.take(n).drop_last() =~= valid.take(n - 1));
        assert(valid.take(n).last() == valid[n - 1]);
    }
}

fn list_invalid(valid: &Vec<bool>) -> (cells: Vec<usize>)
    ensures
        cells@ == invalid_below(valid@, valid.len() as int),
        cells.len() == unset(valid@),
        forall|i: int| 0 <= i < cells.len() ==> (#[trigger] cells@[i]) < valid.len(),
{
    let mut cells: Vec<usize> = Vec::new();
    for c in 0..valid.len()
        invariant
            cells@ == invalid_below(valid@, c as int),
    {
        if !valid[c] {
            cells.push(c);
        }
    }
    proof {
        lemma_invalid_below(valid@, valid.len() as int);
        assert(valid@.take(valid@.len() as int) =~= valid@);
    }
    cells
}

/// Where a mark changes, the number of marks that are not set changes with
/// it.
proof fn lemma_unset_changed(marks: Seq<bool>, i: int, mark: bool)
    requires
        0 <= i < marks.len(),
    ensures
        unset(marks.update(i, mark)) == unset(marks) - (if marks[i] {
            0int
        } else {
            1
        }) + (if mark {
            0int
        } else {
            1
        }),
        !marks[i] ==> unset(marks) >= 1,
    decreases marks.len(),
{
    let after = marks.update(i, mark);
    if i == marks.len() - 1 {
        assert(after.drop_last() =~= marks.drop_last());
    } else {
        assert(after.drop_last() =~= marks.drop_last().update(i, mark));
        lemma_unset_changed(marks.drop_last(), i, mark);
    }
}

proof fn lemma_unset_all(marks: Seq<bool>)
    ensures
        unset(marks) == 0 <==> (forall|i: int| 0 <= i < marks.len() ==> #[trigger] marks[i]),
        unset(marks) <= marks.len(),
    decreases marks.len(),
{
    if marks.len() > 0 {
        let front = marks.drop_last();
        lemma_unset_all(front);
        if unset(marks) == 0 {
            assert forall|i: int| 0 <= i < marks.len() implies #[trigger] marks[i] by {
                if i < front.len() {
                    assert(front[i]);
                }
            }
        } else if forall|i: int| 0 <= i < marks.len() ==> #[trigger] marks[i] {
            assert forall|i: int| 0 <= i < front.len() implies #[trigger] front[i] by {
                assert(marks[i]);
            }
            assert(marks[marks.len() - 1]);
        }
    }
}

/// A change of one side of a piece: the side, the neighbour there, the new
/// value, and how the change was rated.
#[derive(Clone, Copy, Debug)]
pub struct Move {
    pub dir: usize,
    pub nb: usize,
    pub value: i32,
    pub key: u64,
}

/// What a change is worth before the shape of the pieces counts: a million
/// for each piece that becomes valid, less as much for each that ceases to
/// be, and something for each of the two that is valid then.
pub open spec fn bonus_of(was_cell: bool, was_nb: bool, now_cell: bool, now_nb: bool) -> int {
    let before = (if was_cell {
        0int
    } else {
        1
    }) + (if was_nb {
        0int
    } else {
        1
    });
    let after = (if now_cell {
        0int
    } else {
        1
    }) + (if now_nb {
        0int
    } else {
        1
    });
    (before - after) * 1_000_000 + (if now_cell {
        200_000int
    } else {
        0
    }) + (if now_nb {
        20_000int
    } else {
        0
    })
}

pub fn move_bonus(was_cell: bool, was_nb: bool, now_cell: bool, now_nb: bool) -> (bonus: i64)
    ensures
        bonus == bonus_of(was_cell, was_nb, now_cell, now_nb),
{
    let before: i64 = (if was_cell { 0i64 } else { 1 }) + (if was_nb { 0i64 } else { 1 });
    let after: i64 = (if now_cell { 0i64 } else { 1 }) + (if now_nb { 0i64 } else { 1 });
    let mut bonus: i64 = (before - after) * 1_000_000;
    if now_cell {
        bonus = bonus + 200_000;
    }
    if now_nb {
        bonus = bonus + 20_000;
    }
    bonus
}

/// The number of core ids that a change picks from.
pub const NEAR_CORE: usize = 8;

/// The core ids that a change picks from.
pub open spec fn near_core(core: Seq<i32>) -> Seq<i32> {
    core.take(if core.len() < NEAR_CORE {
        core.len() as int
    } else {
        NEAR_CORE as int
    })
}

/// Whether a side of a piece can be changed so: it is turned the other way,
/// or a core id is replaced by another one.
pub open spec fn legal_move(links: Seq<[Option<usize>; 6]>, core: Seq<i32>, rows: Seq<[i32; 6]>, cell: int, mv: Move) -> bool {
    let old_value = rows[cell]@[mv.dir as int];
    &&& mv.dir < 6
    &&& links[cell]@[mv.dir as int] == Some(mv.nb)
    &&& old_value != 0
    &&& mv.value > i32::MIN
    &&& mv.value == -old_value || (core.contains(magnitude(old_value) as i32) && near_core(core).contains(
        magnitude(mv.value) as i32,
    ) && magnitude(mv.value) != magnitude(old_value))
}

/// Whether the rating of a change is that of the two pieces after it.
pub open spec fn rated_move<G, P: Fn(i64, &Profile, &Profile) -> u64>(
    rate: P,
    memo: Map<Seq<i32>, Option<G>>,
    rows: Seq<[i32; 6]>,
    valid: Seq<bool>,
    targets: Seq<usize>,
    cell: int,
    mv: Move,
) -> bool {
    let nb = mv.nb as int;
    let a = rows[cell]@.update(mv.dir as int, mv.value);
    let b = rows[nb]@.update(opposite(mv.dir as int), (-mv.value) as i32);
    &&& judged(memo, a)
    &&& judged(memo, b)
    &&& rated(
        rate,
        bonus_of(valid[cell], valid[nb], valid_in(memo, a), valid_in(memo, b)) as i64,
        a,
        targets[cell] as int,
        b,
        targets[nb] as int,
        mv.key,
    )
}

/// The first of the moves with the highest rating.
pub open spec fn best_move(moves: Seq<Move>) -> Option<Move>
    decreases moves.len(),
{
    if moves.len() == 0 {
        None
    } else {
        let before = best_move(moves.drop_last());
        if before is Some && before->0.key >= moves.last().key {
            before
        } else {
            Some(moves.last())
        }
    }
}

/// Whether the moves are those to consider for a cell: each is legal and
/// rated, and every side that has a value is turned the other way in one.
pub open spec fn moves_for<G, P: Fn(i64, &Profile, &Profile) -> u64>(
    links: Seq<[Option<usize>; 6]>,
    core: Seq<i32>,
    rate: P,
    memo: Map<Seq<i32>, Option<G>>,
    rows: Seq<[i32; 6]>,
    valid: Seq<bool>,
    targets: Seq<usize>,
    cell: int,
    dirs: int,
    moves: Seq<Move>,
) -> bool {
    &&& forall|i: int|
        0 <= i < moves.len() ==> legal_move(links, core, rows, cell, #[trigger] moves[i]) && rated_move(
            rate,
            memo,
            rows,
            valid,
            targets,
            cell,
            moves[i],
        )
    &&& forall|dir: int|
        0 <= dir < dirs && links[cell]@[dir] is Some && (#[trigger] rows[cell]@[dir]) != 0 ==> turns_side(
            moves,
            dir,
            rows[cell]@[dir],
        )
}

/// Whether one of the moves turns a side the other way.
pub open spec fn turns_side(moves: Seq<Move>, dir: int, value: i32) -> bool {
    exists|i: int| 0 <= i < moves.len() && (#[trigger] moves[i]).dir == dir && moves[i].value == -value
}

/// A move was considered; the best one is kept.
proof fn lemma_move_added<G, P: Fn(i64, &Profile, &Profile) -> u64, B: Fn(&[i32; 6]) -> Option<G>>(
    links: Seq<[Option<usize>; 6]>,
    core: Seq<i32>,
    rate: P,
    build: B,
    before: Map<Seq<i32>, Option<G>>,
    after: Map<Seq<i32>, Option<G>>,
    rows: Seq<[i32; 6]>,
    valid: Seq<bool>,
    targets: Seq<usize>,
    cell: int,
    dirs: int,
    moves: Seq<Move>,
    mv: Move,
)
    requires
        memo_grew(before, after, build),
        moves_for(links, core, rate, before, rows, valid, targets, cell, dirs, moves),
        legal_move(links, core, rows, cell, mv),
        rated_move(rate, after, rows, valid, targets, cell, mv),
    ensures
        moves_for(links, core, rate, after, rows, valid, targets, cell, dirs, moves.push(mv)),
        turns_side(moves.push(mv), mv.dir as int, (-mv.value) as i32),
        best_move(moves.push(mv)) == (if best_move(moves) is Some && best_move(moves)->0.key >= mv.key {
            best_move(moves)
        } else {
            Some(mv)
        }),
{
    let more = moves.push(mv);
    assert(more.drop_last() =~= moves);
    assert forall|i: int| 0 <= i < more.len() implies legal_move(links, core, rows, cell, #[trigger] more[i])
        && rated_move(rate, after, rows, valid, targets, cell, more[i]) by {
        if i < moves.len() {
            assert(more[i] == moves[i]);
            assert(rated_move(rate, before, rows, valid, targets, cell, moves[i]));
        }
    }
    assert forall|dir: int|
        0 <= dir < dirs && links[cell]@[dir] is Some && (#[trigger] rows[cell]@[dir]) != 0 implies turns_side(
        more,
        dir,
        rows[cell]@[dir],
    ) by {
        assert(turns_side(moves, dir, rows[cell]@[dir]));
        let i = choose|i: int| 0 <= i < moves.len() && (#[trigger] moves[i]).dir == dir && moves[i].value == -rows[cell]@[dir];
        assert(more[i] == moves[i]);
    }
    assert(more[more.len() - 1] == mv);
}

/// Rates a change.
fn consider<G, B: Fn(&[i32; 6]) -> Option<G>, P: Fn(i64, &Profile, &Profile) -> u64>(
    rows: &Vec<[i32; 6]>,
    valid: &Vec<bool>,
    targets: &Vec<usize>,
    cell: usize,
    nb: usize,
    dir: usize,
    value: i32,
    memo: &mut GeomMemo<G>,
    build: &B,
    rate: &P,
) -> (mv: Move)
    requires
        old(memo).wf(),
        forall|canon: &[i32; 6]| #[trigger] build.requires((canon,)),
        forall|n: i64, pa: &Profile, pb: &Profile| #[trigger] rate.requires((n, pa, pb)),
        cell < rows.len(),
        nb < rows.len(),
        dir < 6,
        value > i32::MIN,
        negatable(rows@),
        valid.len() == rows.len(),
        targets.len() == rows.len(),
        forall|c: int| 0 <= c < targets.len() ==> #[trigger] targets@[c] <= 3,
    ensures
        final(memo).wf(),
        final(memo).edge_meta == old(memo).edge_meta,
        memo_grew(old(memo).cache@, final(memo).cache@, *build),
        mv.dir == dir,
        mv.nb == nb,
        mv.value == value,
        rated_move(*rate, final(memo).cache@, rows@, valid@, targets@, cell as int, mv),
{
    let opp: usize = opposite_dir(dir);
    let mut row_a: [i32; 6] = rows[cell];
    let mut row_b: [i32; 6] = rows[nb];
    assert forall|d: int| 0 <= d < 6 implies (#[trigger] row_a@[d]) > i32::MIN && row_b@[d] > i32::MIN by {
        assert(rows@[cell as int]@[d] > i32::MIN);
        assert(rows@[nb as int]@[d] > i32::MIN);
    }
    row_a[dir] = value;
    row_b[opp] = -value;
    assert(row_a@ =~= rows@[cell as int]@.update(dir as int, value));
    assert(row_b@ =~= rows@[nb as int]@.update(opp as int, (-value) as i32));
    let ghost start = memo.cache@;
    let now_cell: bool = is_piece_valid(&row_a, memo, build);
    let ghost between = memo.cache@;
    let now_nb: bool = is_piece_valid(&row_b, memo, build);
    proof {
        lemma_memo_grew(start, between, memo.cache@, *build);
    }
    let bonus: i64 = move_bonus(valid[cell], valid[nb], now_cell, now_nb);
    assert(targets@[cell as int] <= 3 && targets@[nb as int] <= 3);
    let key: u64 = rate_pair(&row_a, targets[cell], &row_b, targets[nb], bonus, rate);
    Move { dir, nb, value, key }
}

/// Keeps the better of two moves: the first one, unless the second is rated
/// higher.
fn keep_better(best: &mut Option<Move>, mv: Move)
    ensures
        *final(best) == (if *old(best) is Some && old(best)->0.key >= mv.key {
            *old(best)
        } else {
            Some(mv)
        }),
{
    let higher: bool = match best {
        Some(kept) => mv.key > kept.key,
        None => true,
    };
    if higher {
        *best = Some(mv);
    }
}

/// The values that replacing an id by the first `n` of `ids` gives a side,
/// either way. An id does not replace itself.
pub open spec fn swap_values(ids: Seq<i32>, old_id: int, n: int) -> Seq<i32>
    decreases n,
{
    if n <= 0 {
        Seq::empty()
    } else if ids[n - 1] == old_id {
        swap_values(ids, old_id, n - 1)
    } else {
        swap_values(ids, old_id, n - 1).push((-ids[n - 1]) as i32).push(ids[n - 1])
    }
}

/// The values to consider for a side that has `value`: it is turned the other
/// way, and a core id is replaced by each of the three `ids`, either way.
pub open spec fn side_values(core: Seq<i32>, value: i32, ids: Seq<i32>) -> Seq<i32> {
    let turned = seq![(-value) as i32];
    if core.contains(magnitude(value) as i32) {
        turned + swap_values(ids, magnitude(value), 3)
    } else {
        turned
    }
}

/// Values with the side that they are for.
pub open spec fn at_side(dir: int, values: Seq<i32>) -> Seq<(int, i32)> {
    Seq::new(values.len(), |i: int| (dir, values[i]))
}

/// The changes to consider for a piece, in order: those of each of the first
/// `dirs` sides that faces a neighbour and has a value, with the ids drawn
/// for that side.
pub open spec fn changes(
    links: Seq<[Option<usize>; 6]>,
    core: Seq<i32>,
    rows: Seq<[i32; 6]>,
    cell: int,
    drawn: Seq<[i32; 3]>,
    dirs: int,
) -> Seq<(int, i32)>
    decreases dirs,
{
    if dirs <= 0 {
        Seq::empty()
    } else {
        let before = changes(links, core, rows, cell, drawn, dirs - 1);
        let value = rows[cell]@[dirs - 1];
        if links[cell]@[dirs - 1] is Some && value != 0 {
            before + at_side(dirs - 1, side_values(core, value, drawn[dirs - 1]@))
        } else {
            before
        }
    }
}

/// What the moves change, in order.
pub open spec fn changes_of(moves: Seq<Move>) -> Seq<(int, i32)> {
    Seq::new(moves.len(), |i: int| (moves[i].dir as int, moves[i].value))
}

/// Whether the ids drawn for each side with a core id are such as a change
/// picks from.
pub open spec fn swaps_near(
    links: Seq<[Option<usize>; 6]>,
    core: Seq<i32>,
    rows: Seq<[i32; 6]>,
    cell: int,
    drawn: Seq<[i32; 3]>,
) -> bool {
    &&& drawn.len() == 6
    &&& forall|dir: int, k: int|
        0 <= dir < 6 && 0 <= k < 3 && is_core_side(links, core, rows, cell, dir) ==> near_core(core).contains(
            #[trigger] drawn[dir]@[k],
        )
}

/// Whether `moves` are the changes to consider for a piece with the ids
/// `drawn`, in order, each with its rating.
pub open spec fn considers<G, P: Fn(i64, &Profile, &Profile) -> u64>(
    links: Seq<[Option<usize>; 6]>,
    core: Seq<i32>,
    rate: P,
    memo: Map<Seq<i32>, Option<G>>,
    rows: Seq<[i32; 6]>,
    valid: Seq<bool>,
    targets: Seq<usize>,
    cell: int,
    drawn: Seq<[i32; 3]>,
    moves: Seq<Move>,
) -> bool {
    &&& moves_for(links, core, rate, memo, rows, valid, targets, cell, 6, moves)
    &&& changes_of(moves) == changes(links, core, rows, cell, drawn, 6)
}

/// The changes of one side of a piece, each rated: the side is turned the
/// other way, and a core id is replaced by each of `ids`, either way.
fn consider_side<G, B: Fn(&[i32; 6]) -> Option<G>, P: Fn(i64, &Profile, &Profile) -> u64>(
    links: &Links,
    core: &Vec<i32>,
    rows: &Vec<[i32; 6]>,
    valid: &Vec<bool>,
    targets: &Vec<usize>,
    cell: usize,
    nb: usize,
    dir: usize,
    ids: &[i32; 3],
    best: &mut Option<Move>,
    memo: &mut GeomMemo<G>,
    build: &B,
    rate: &P,
    Ghost(before): Ghost<Seq<Move>>,
) -> (considered: Ghost<Seq<Move>>)
    requires
        old(memo).wf(),
        forall|canon: &[i32; 6]| #[trigger] build.requires((canon,)),
        forall|n: i64, pa: &Profile, pb: &Profile| #[trigger] rate.requires((n, pa, pb)),
        rows.len() == links.len(),
        cell < rows.len(),
        nb < rows.len(),
        dir < 6,
        links@[cell as int]@[dir as int] == Some(nb),
        rows@[cell as int]@[dir as int] != 0,
        negatable(rows@),
        valid.len() == rows.len(),
        targets.len() == rows.len(),
        forall|c: int| 0 <= c < targets.len() ==> #[trigger] targets@[c] <= 3,
        core.len() > 0,
        forall|i: int| 0 <= i < core.len() ==> #[trigger] core@[i] > 0,
        is_core_side(links@, core@, rows@, cell as int, dir as int) ==> forall|k: int|
            0 <= k < 3 ==> near_core(core@).contains(#[trigger] ids@[k]),
        *old(best) == best_move(before),
        moves_for(
            links@,
            core@,
            *rate,
            old(memo).cache@,
            rows@,
            valid@,
            targets@,
            cell as int,
            dir as int,
            before,
        ),
    ensures
        final(memo).wf(),
        final(memo).edge_meta == old(memo).edge_meta,
        memo_grew(old(memo).cache@, final(memo).cache@, *build),
        *final(best) == best_move(considered@),
        moves_for(
            links@,
            core@,
            *rate,
            final(memo).cache@,
            rows@,
            valid@,
            targets@,
            cell as int,
            dir + 1,
            considered@,
        ),
        changes_of(considered@) == changes_of(before) + at_side(
            dir as int,
            side_values(core@, rows@[cell as int]@[dir as int], ids@),
        ),
{
    let old_value: i32 = rows[cell][dir];
    assert(rows@[cell as int]@[dir as int] > i32::MIN);
    let ghost start = memo.cache@;
    let ghost mut moves = before;
    let turned: Move = consider(rows, valid, targets, cell, nb, dir, -old_value, memo, build, rate);
    proof {
        lemma_move_added(
            links@,
            core@,
            *rate,
            *build,
            start,
            memo.cache@,
            rows@,
            valid@,
            targets@,
            cell as int,
            dir as int,
            moves,
            turned,
        );
        lemma_changes_push(before, turned);
        moves = moves.push(turned);
        assert(at_side(dir as int, seq![(-old_value) as i32]) =~= seq![(dir as int, (-old_value) as i32)]);
        assert(changes_of(before).push((dir as int, (-old_value) as i32)) =~= changes_of(before) + at_side(
            dir as int,
            seq![(-old_value) as i32],
        ));
        assert(turns_side(moves, dir as int, old_value));
    }
    keep_better(best, turned);
    let old_id: i32 = if old_value < 0 { -old_value } else { old_value };
    if holds_id(core, old_id) {
        assert(is_core_side(links@, core@, rows@, cell as int, dir as int));
        assert(seq![(-old_value) as i32] + swap_values(ids@, old_id as int, 0) =~= seq![(-old_value) as i32]);
        for t in 0..3usize
            invariant
                memo.wf(),
                memo.edge_meta == old(memo).edge_meta,
                start == old(memo).cache@,
                memo_grew(start, memo.cache@, *build),
                forall|canon: &[i32; 6]| #[trigger] build.requires((canon,)),
                forall|n: i64, pa: &Profile, pb: &Profile| #[trigger] rate.requires((n, pa, pb)),
                rows.len() == links.len(),
                cell < rows.len(),
                nb < rows.len(),
                dir < 6,
                links@[cell as int]@[dir as int] == Some(nb),
                old_value == rows@[cell as int]@[dir as int],
                old_value != 0,
                old_value > i32::MIN,
                old_id == magnitude(old_value),
                core@.contains(old_id),
                negatable(rows@),
                valid.len() == rows.len(),
                targets.len() == rows.len(),
                forall|c: int| 0 <= c < targets.len() ==> #[trigger] targets@[c] <= 3,
                core.len() > 0,
                forall|i: int| 0 <= i < core.len() ==> #[trigger] core@[i] > 0,
                forall|k: int| 0 <= k < 3 ==> near_core(core@).contains(#[trigger] ids@[k]),
                changes_of(moves) == changes_of(before) + at_side(
                    dir as int,
                    seq![(-old_value) as i32] + swap_values(ids@, old_id as int, t as int),
                ),
                *best == best_move(moves),
                turns_side(moves, dir as int, old_value),
                moves_for(
                    links@,
                    core@,
                    *rate,
                    memo.cache@,
                    rows@,
                    valid@,
                    targets@,
                    cell as int,
                    dir as int,
                    moves,
                ),
        {
            let new_id: i32 = ids[t];
            let ghost past = moves;
            if new_id != old_id {
                assert(near_core(core@).contains(ids@[t as int]));
                assert(core@.contains(new_id) && new_id > 0) by {
                    let near = near_core(core@);
                    let i = choose|i: int| 0 <= i < near.len() && near[i] == new_id;
                    assert(core@[i] == new_id);
                }
                let ghost m0 = memo.cache@;
                let inward: Move = consider(rows, valid, targets, cell, nb, dir, -new_id, memo, build, rate);
                let ghost m1 = memo.cache@;
                proof {
                    lemma_memo_grew(start, m0, m1, *build);
                    lemma_move_added(
                        links@,
                        core@,
                        *rate,
                        *build,
                        m0,
                        m1,
                        rows@,
                        valid@,
                        targets@,
                        cell as int,
                        dir as int,
                        moves,
                        inward,
                    );
                    lemma_turns_kept(moves, inward, dir as int, old_value);
                    moves = moves.push(inward);
                }
                keep_better(best, inward);
                let outward: Move = consider(rows, valid, targets, cell, nb, dir, new_id, memo, build, rate);
                proof {
                    lemma_memo_grew(start, m1, memo.cache@, *build);
                    lemma_move_added(
                        links@,
                        core@,
                        *rate,
                        *build,
                        m1,
                        memo.cache@,
                        rows@,
                        valid@,
                        targets@,
                        cell as int,
                        dir as int,
                        moves,
                        outward,
                    );
                    lemma_turns_kept(moves, outward, dir as int, old_value);
                    lemma_changes_push(past, inward);
                    lemma_changes_push(moves, outward);
                    moves = moves.push(outward);
                    let values = seq![(-old_value) as i32] + swap_values(ids@, old_id as int, t as int);
                    let more = seq![(-old_value) as i32] + swap_values(ids@, old_id as int, t + 1);
                    assert(more =~= values.push((-new_id) as i32).push(new_id));
                    assert(changes_of(moves) =~= changes_of(before) + at_side(dir as int, more));
                }
                keep_better(best, outward);
            }
        }
    }
    Ghost(moves)
}

proof fn lemma_changes_push(moves: Seq<Move>, mv: Move)
    ensures
        changes_of(moves.push(mv)) == changes_of(moves).push((mv.dir as int, mv.value)),
{
    assert(changes_of(moves.push(mv)) =~= changes_of(moves).push((mv.dir as int, mv.value)));
}

proof fn lemma_turns_kept(moves: Seq<Move>, mv: Move, dir: int, value: i32)
    requires
        turns_side(moves, dir, value),
    ensures
        turns_side(moves.push(mv), dir, value),
{
    let i = choose|i: int| 0 <= i < moves.len() && (#[trigger] moves[i]).dir == dir && moves[i].value == -value;
    assert(moves.push(mv)[i] == moves[i]);
}

/// The first eight ids of a core, or all if there are not so many.
pub open spec fn lowest_eight(core: Seq<i32>) -> Seq<i32> {
    Seq::new(
        (if core.len() < 8 {
            core.len() as int
        } else {
            8
        }) as nat,
        |i: int| core[i],
    )
}

/// Whether the ids to replace core ids by, as far as they belong to the first
/// `n` places, three to a side, are those that generator `before` picks in
/// turn out of the first ids of the core, and the generator is `after` then.
pub open spec fn swaps_drawn(
    before: StdRng,
    after: StdRng,
    links: Seq<[Option<usize>; 6]>,
    core: Seq<i32>,
    rows: Seq<[i32; 6]>,
    cell: int,
    drawn: Seq<[i32; 3]>,
    n: int,
) -> bool
    decreases n,
{
    if n <= 0 {
        before == after
    } else if !is_core_side(links, core, rows, cell, (n - 1) / 3) {
        swaps_drawn(before, after, links, core, rows, cell, drawn, n - 1)
    } else {
        exists|mid: StdRng, id: i32| #[trigger]
            gave_item(mid, after, lowest_eight(core), Some(id)) && id == drawn[(n - 1) / 3]@[(n - 1) % 3] && swaps_drawn(
                before,
                mid,
                links,
                core,
                rows,
                cell,
                drawn,
                n - 1,
            )
    }
}

proof fn lemma_swaps_kept(
    before: StdRng,
    after: StdRng,
    links: Seq<[Option<usize>; 6]>,
    core: Seq<i32>,
    rows: Seq<[i32; 6]>,
    cell: int,
    drawn: Seq<[i32; 3]>,
    other: Seq<[i32; 3]>,
    n: int,
)
    requires
        swaps_drawn(before, after, links, core, rows, cell, drawn, n),
        forall|d: int, k: int| 0 <= d && 0 <= k < 3 && 3 * d + k < n ==> (#[trigger] other[d]@[k]) == drawn[d]@[k],
    ensures
        swaps_drawn(before, after, links, core, rows, cell, other, n),
    decreases n,
{
    if n > 0 {
        let d = (n - 1) / 3;
        let k = (n - 1) % 3;
        if !is_core_side(links, core, rows, cell, d) {
            lemma_swaps_kept(before, after, links, core, rows, cell, drawn, other, n - 1);
        } else {
            let (mid, id) = choose|mid: StdRng, id: i32| #[trigger]
                gave_item(mid, after, lowest_eight(core), Some(id)) && id == drawn[d]@[k] && swaps_drawn(
                    before,
                    mid,
                    links,
                    core,
                    rows,
                    cell,
                    drawn,
                    n - 1,
                );
            lemma_swaps_kept(before, mid, links, core, rows, cell, drawn, other, n - 1);
            assert(3 * d + k == n - 1);
            assert(other[d]@[k] == drawn[d]@[k]);
            assert(gave_item(mid, after, lowest_eight(core), Some(id)));
        }
    }
}

/// Three ids to replace the core id of each side by, for every side of a
/// piece that faces a neighbour with a core id.
fn draw_swaps(links: &Links, core: &Vec<i32>, near: &Vec<i32>, rows: &Vec<[i32; 6]>, cell: usize, rng: &mut StdRng) -> (drawn: [[i32; 3]; 6])
    requires
        cell < links.len(),
        rows.len() == links.len(),
        negatable(rows@),
        near@ == near_core(core@),
        near.len() > 0,
    ensures
        swaps_near(links@, core@, rows@, cell as int, drawn@),
        swaps_drawn(*old(rng), *final(rng), links@, core@, rows@, cell as int, drawn@, 18),
{
    let mut drawn: [[i32; 3]; 6] = [[0; 3]; 6];
    for dir in 0..6usize
        invariant
            cell < links.len(),
            rows.len() == links.len(),
            negatable(rows@),
            near@ == near_core(core@),
            near.len() > 0,
            swaps_drawn(*old(rng), *rng, links@, core@, rows@, cell as int, drawn@, 3 * dir),
            forall|d: int, k: int|
                0 <= d < dir && 0 <= k < 3 && is_core_side(links@, core@, rows@, cell as int, d) ==> near_core(
                    core@,
                ).contains(#[trigger] drawn@[d]@[k]),
    {
        let value: i32 = rows[cell][dir];
        assert(rows@[cell as int]@[dir as int] > i32::MIN);
        let id: i32 = if value < 0 { -value } else { value };
        assert(3 * dir / 3 == dir && (3 * dir + 1) / 3 == dir && (3 * dir + 2) / 3 == dir);
        if links[cell][dir].is_some() && value != 0 && holds_id(core, id) {
            let mut ids: [i32; 3] = [near[0]; 3];
            proof {
                lemma_swaps_kept(
                    *old(rng),
                    *rng,
                    links@,
                    core@,
                    rows@,
                    cell as int,
                    drawn@,
                    drawn@.update(dir as int, ids),
                    3 * dir,
                );
            }
            for k in 0..3usize
                invariant
                    near.len() > 0,
                    near@ == near_core(core@),
                    dir < 6,
                    is_core_side(links@, core@, rows@, cell as int, dir as int),
                    swaps_drawn(
                        *old(rng),
                        *rng,
                        links@,
                        core@,
                        rows@,
                        cell as int,
                        drawn@.update(dir as int, ids),
                        3 * dir + k,
                    ),
                    forall|j: int| 0 <= j < 3 ==> near@.contains(#[trigger] ids@[j]),
            {
                let ghost mid = *rng;
                let ghost past = drawn@.update(dir as int, ids);
                let item: Option<i32> = next_item(near.as_slice(), rng);
                if let Some(picked) = item {
                    ids[k] = picked;
                    proof {
                        let now = drawn@.update(dir as int, ids);
                        assert((3 * dir + k) / 3 == dir && (3 * dir + k) % 3 == k);
                        lemma_swaps_kept(*old(rng), mid, links@, core@, rows@, cell as int, past, now, 3 * dir + k);
                        assert(now[dir as int]@[k as int] == picked);
                        assert(lowest_eight(core@) =~= near_core(core@));
                        assert(gave_item(mid, *rng, lowest_eight(core@), Some(picked)));
                    }
                }
            }
            let ghost past = drawn@;
            drawn[dir] = ids;
            assert(drawn@ =~= past.update(dir as int, ids));
            assert forall|d: int, k: int|
                0 <= d < dir + 1 && 0 <= k < 3 && is_core_side(links@, core@, rows@, cell as int, d) implies near_core(
                core@,
            ).contains(#[trigger] drawn@[d]@[k]) by {
                if d < dir {
                    assert(drawn@[d] == past[d]);
                    assert(near_core(core@).contains(past[d]@[k]));
                } else {
                    assert(near@.contains(ids@[k]));
                }
            }
        } else {
            proof {
                assert(!is_core_side(links@, core@, rows@, cell as int, dir as int));
                assert(swaps_drawn(*old(rng), *rng, links@, core@, rows@, cell as int, drawn@, 3 * dir + 1));
                assert(swaps_drawn(*old(rng), *rng, links@, core@, rows@, cell as int, drawn@, 3 * dir + 2));
                assert(swaps_drawn(*old(rng), *rng, links@, core@, rows@, cell as int, drawn@, 3 * dir + 3));
            }
        }
    }
    drawn
}

/// The best change of a piece, if there is one: the first of the changes of
/// its sides with the highest rating. A core id can be replaced by the ids
/// drawn for its side.
pub fn find_move<G, B: Fn(&[i32; 6]) -> Option<G>, P: Fn(i64, &Profile, &Profile) -> u64>(
    links: &Links,
    core: &Vec<i32>,
    rows: &Vec<[i32; 6]>,
    valid: &Vec<bool>,
    targets: &Vec<usize>,
    cell: usize,
    drawn: &[[i32; 3]; 6],
    memo: &mut GeomMemo<G>,
    build: &B,
    rate: &P,
) -> (best: Option<Move>)
    requires
        old(memo).wf(),
        forall|canon: &[i32; 6]| #[trigger] build.requires((canon,)),
        forall|n: i64, pa: &Profile, pb: &Profile| #[trigger] rate.requires((n, pa, pb)),
        links_in_range(links@),
        rows.len() == links.len(),
        cell < rows.len(),
        negatable(rows@),
        valid.len() == rows.len(),
        targets.len() == rows.len(),
        forall|c: int| 0 <= c < targets.len() ==> #[trigger] targets@[c] <= 3,
        core.len() > 0,
        forall|i: int| 0 <= i < core.len() ==> #[trigger] core@[i] > 0,
        swaps_near(links@, core@, rows@, cell as int, drawn@),
    ensures
        final(memo).wf(),
        final(memo).edge_meta == old(memo).edge_meta,
        memo_grew(old(memo).cache@, final(memo).cache@, *build),
        exists|moves: Seq<Move>| #[trigger]
            considers(
                links@,
                core@,
                *rate,
                final(memo).cache@,
                rows@,
                valid@,
                targets@,
                cell as int,
                drawn@,
                moves,
            ) && best == best_move(moves),
{
    let mut best: Option<Move> = None;
    let ghost mut moves: Seq<Move> = Seq::empty();
    let ghost start = memo.cache@;
    assert(changes_of(moves) =~= changes(links@, core@, rows@, cell as int, drawn@, 0));
    for dir in 0..6usize
        invariant
            memo.wf(),
            memo.edge_meta == old(memo).edge_meta,
            start == old(memo).cache@,
            memo_grew(start, memo.cache@, *build),
            forall|canon: &[i32; 6]| #[trigger] build.requires((canon,)),
            forall|n: i64, pa: &Profile, pb: &Profile| #[trigger] rate.requires((n, pa, pb)),
            links_in_range(links@),
            rows.len() == links.len(),
            cell < rows.len(),
            negatable(rows@),
            valid.len() == rows.len(),
            targets.len() == rows.len(),
            forall|c: int| 0 <= c < targets.len() ==> #[trigger] targets@[c] <= 3,
            core.len() > 0,
            forall|i: int| 0 <= i < core.len() ==> #[trigger] core@[i] > 0,
            swaps_near(links@, core@, rows@, cell as int, drawn@),
            changes_of(moves) == changes(links@, core@, rows@, cell as int, drawn@, dir as int),
            best == best_move(moves),
            moves_for(
                links@,
                core@,
                *rate,
                memo.cache@,
                rows@,
                valid@,
                targets@,
                cell as int,
                dir as int,
                moves,
            ),
    {
        if let Some(nb) = links[cell][dir] {
            assert(links@[cell as int]@[dir as int] is Some);
            if rows[cell][dir] != 0 {
                let ghost m0 = memo.cache@;
                assert forall|k: int| 0 <= k < 3 && is_core_side(links@, core@, rows@, cell as int, dir as int) implies near_core(
                    core@,
                ).contains(#[trigger] drawn@[dir as int]@[k]) by {
                }
                let Ghost(more) = consider_side(
                    links,
                    core,
                    rows,
                    valid,
                    targets,
                    cell,
                    nb,
                    dir,
                    &drawn[dir],
                    &mut best,
                    memo,
                    build,
                    rate,
                    Ghost(moves),
                );
                proof {
                    lemma_memo_grew(start, m0, memo.cache@, *build);
                    moves = more;
                }
            }
        }
    }
    assert(considers(
        links@,
        core@,
        *rate,
        memo.cache@,
        rows@,
        valid@,
        targets@,
        cell as int,
        drawn@,
        moves,
    ));
    best
}

/// What holds between the steps of a repair that began with `start`.
spec fn in_repair<G>(
    links: Seq<[Option<usize>; 6]>,
    core: Seq<i32>,
    start: Seq<[i32; 6]>,
    memo: Map<Seq<i32>, Option<G>>,
    rows: Seq<[i32; 6]>,
    valid: Seq<bool>,
) -> bool {
    &&& cancels(links, rows)
    &&& negatable(rows)
    &&& keeps_ids(links, core, start, rows)
    &&& marks_valid(memo, rows, valid)
}

/// Changes an edge and judges the two pieces again.
fn change_edge<G, B: Fn(&[i32; 6]) -> Option<G>>(
    links: &Links,
    rows: &mut Vec<[i32; 6]>,
    valid: &mut Vec<bool>,
    cell: usize,
    nb: usize,
    dir: usize,
    value: i32,
    memo: &mut GeomMemo<G>,
    build: &B,
    Ghost(core): Ghost<Seq<i32>>,
    Ghost(start): Ghost<Seq<[i32; 6]>>,
)
    requires
        old(memo).wf(),
        forall|canon: &[i32; 6]| #[trigger] build.requires((canon,)),
        links_in_range(links@),
        links_mutual(links@),
        cell < links.len(),
        nb < links.len(),
        dir < 6,
        value > i32::MIN,
        joins(links@, (cell, nb, dir)),
        in_repair(links@, core, start, old(memo).cache@, old(rows)@, old(valid)@),
        kin(core, old(rows)@[cell as int]@[dir as int], value),
    ensures
        final(memo).wf(),
        final(memo).edge_meta == old(memo).edge_meta,
        memo_grew(old(memo).cache@, final(memo).cache@, *build),
        in_repair(links@, core, start, final(memo).cache@, final(rows)@, final(valid)@),
        shows(final(rows)@, (cell, nb, dir), value as int),
        differ_at(links@, old(rows)@, final(rows)@, (cell, nb, dir)),
        final(valid).len() == old(valid).len(),
        final(valid)@ == old(valid)@.update(cell as int, final(valid)@[cell as int]).update(
            nb as int,
            final(valid)@[nb as int],
        ),
{
    let ghost edge = (cell, nb, dir);
    let ghost before = rows@;
    let ghost marks = valid@;
    assert(links@.len() == links.len());
    proof {
        lemma_edge_back(links@, edge);
    }
    set_edge(rows, cell, nb, dir, value);
    proof {
        lemma_keeps_ids_step(links@, core, start, before, rows@, edge, value);
    }
    let ghost m0 = memo.cache@;
    let now_cell: bool = is_piece_valid(&rows[cell], memo, build);
    let ghost m1 = memo.cache@;
    let now_nb: bool = is_piece_valid(&rows[nb], memo, build);
    valid[cell] = now_cell;
    valid[nb] = now_nb;
    proof {
        lemma_memo_grew(m0, m1, memo.cache@, *build);
        lemma_marks_kept(m0, memo.cache@, *build, before, marks);
        assert forall|c: int| 0 <= c < rows.len() implies judged(memo.cache@, (#[trigger] rows@[c])@) && valid@[c]
            == valid_in(memo.cache@, rows@[c]@) by {
            if c != cell && c != nb {
                assert(rows@[c]@ =~= before[c]@) by {
                    assert forall|d: int| 0 <= d < 6 implies rows@[c]@[d] == before[c]@[d] by {
                    }
                }
                assert(judged(memo.cache@, before[c]@) && marks[c] == valid_in(memo.cache@, before[c]@));
            }
        }
        assert(valid@ =~= marks.update(cell as int, now_cell).update(nb as int, now_nb));
    }
}

/// The first cell whose piece is not valid.
fn first_invalid(valid: &Vec<bool>) -> (cell: usize)
    requires
        unset(valid@) > 0,
    ensures
        cell < valid.len(),
        !valid@[cell as int],
        forall|c: int| 0 <= c < cell ==> #[trigger] valid@[c],
{
    let mut cell: usize = 0;
    proof {
        lemma_unset_all(valid@);
    }
    while cell < valid.len() && valid[cell]
        invariant
            cell <= valid.len(),
            forall|c: int| 0 <= c < cell ==> #[trigger] valid@[c],
        decreases valid.len() - cell,
    {
        cell = cell + 1;
    }
    cell
}

/// The number of steps without success after which a random side of the
/// piece is given a random core id.
pub const PATIENCE: usize = 500;

/// Whether a side of the piece on `cell` faces a neighbour with a core id.
pub open spec fn is_core_side(links: Seq<[Option<usize>; 6]>, core: Seq<i32>, rows: Seq<[i32; 6]>, cell: int, dir: int) -> bool {
    &&& links[cell]@[dir] is Some
    &&& rows[cell]@[dir] != 0
    &&& core.contains(magnitude(rows[cell]@[dir]) as i32)
}

/// Whether `sides` are the sides of a piece that face a neighbour with a core
/// id, in order, each with the neighbour.
pub open spec fn lists_core_sides(
    links: Seq<[Option<usize>; 6]>,
    core: Seq<i32>,
    rows: Seq<[i32; 6]>,
    cell: int,
    sides: Seq<(usize, usize)>,
) -> bool {
    &&& forall|i: int|
        0 <= i < sides.len() ==> {
            let (d, nb) = #[trigger] sides[i];
            &&& d < 6
            &&& links[cell]@[d as int] == Some(nb)
            &&& is_core_side(links, core, rows, cell, d as int)
        }
    &&& forall|i: int, j: int| 0 <= i < j < sides.len() ==> (#[trigger] sides[i]).0 < (#[trigger] sides[j]).0
    &&& forall|d: int|
        0 <= d < 6 && #[trigger] is_core_side(links, core, rows, cell, d) ==> exists|i: int|
            0 <= i < sides.len() && (#[trigger] sides[i]).0 == d
}

/// Whether the side that is shaken and its value are what generator `before`
/// gives, and the generator is `after` then: one of the core sides, a core id
/// and a sign.
pub open spec fn shake_drawn(
    before: StdRng,
    after: StdRng,
    links: Seq<[Option<usize>; 6]>,
    core: Seq<i32>,
    rows: Seq<[i32; 6]>,
    cell: int,
    edge: Edge,
    value: i32,
) -> bool {
    exists|sides: Seq<(usize, usize)>| #[trigger]
        lists_core_sides(links, core, rows, cell, sides) && if sides.len() == 0 {
            gave_item(before, after, sides, None)
        } else {
            exists|mid: StdRng, last: StdRng, id: i32, heads: bool|
                #![trigger gave_item(before, mid, sides, Some((edge.2, edge.1))), gave_item(mid, last, core, Some(id)), gave_coin(last, after, heads)]
                gave_item(before, mid, sides, Some((edge.2, edge.1))) && gave_item(mid, last, core, Some(id))
                    && gave_coin(last, after, heads) && value == (if heads {
                    -id
                } else {
                    id as int
                })
        }
}

/// The sides of a piece that face a neighbour with a core id, in order, each
/// with the neighbour.
fn core_sides(links: &Links, core: &Vec<i32>, rows: &Vec<[i32; 6]>, cell: usize) -> (sides: Vec<(usize, usize)>)
    requires
        cell < links.len(),
        rows.len() == links.len(),
        negatable(rows@),
    ensures
        forall|i: int|
            0 <= i < sides.len() ==> {
                let (d, nb) = #[trigger] sides@[i];
                &&& d < 6
                &&& links@[cell as int]@[d as int] == Some(nb)
                &&& is_core_side(links@, core@, rows@, cell as int, d as int)
            },
        forall|i: int, j: int| 0 <= i < j < sides.len() ==> (#[trigger] sides@[i]).0 < (#[trigger] sides@[j]).0,
        forall|d: int|
            0 <= d < 6 && #[trigger] is_core_side(links@, core@, rows@, cell as int, d) ==> exists|i: int|
                0 <= i < sides.len() && (#[trigger] sides@[i]).0 == d,
        lists_core_sides(links@, core@, rows@, cell as int, sides@),
{
    let mut sides: Vec<(usize, usize)> = Vec::new();
    for dir in 0..6usize
        invariant
            cell < links.len(),
            rows.len() == links.len(),
            negatable(rows@),
            forall|i: int|
                0 <= i < sides.len() ==> {
                    let (d, nb) = #[trigger] sides@[i];
                    &&& d < dir
                    &&& links@[cell as int]@[d as int] == Some(nb)
                    &&& is_core_side(links@, core@, rows@, cell as int, d as int)
                },
            forall|i: int, j: int| 0 <= i < j < sides.len() ==> (#[trigger] sides@[i]).0 < (#[trigger] sides@[j]).0,
            forall|d: int|
                0 <= d < dir && #[trigger] is_core_side(links@, core@, rows@, cell as int, d) ==> exists|i: int|
                    0 <= i < sides.len() && (#[trigger] sides@[i]).0 == d,
    {
        let ghost before = sides@;
        if let Some(nb) = links[cell][dir] {
            let value: i32 = rows[cell][dir];
            assert(rows@[cell as int]@[dir as int] > i32::MIN);
            let id: i32 = if value < 0 { -value } else { value };
            if id != 0 && holds_id(core, id) {
                sides.push((dir, nb));
                assert(sides@[sides@.len() - 1].0 == dir);
            }
        }
        assert forall|d: int|
            0 <= d < dir + 1 && #[trigger] is_core_side(links@, core@, rows@, cell as int, d) implies exists|i: int|
                0 <= i < sides.len() && (#[trigger] sides@[i]).0 == d by {
            if d < dir {
                let i = choose|i: int| 0 <= i < before.len() && (#[trigger] before[i]).0 == d;
                assert(sides@[i].0 == d);
            }
        }
    }
    sides
}

/// Whether the value of one core side of the piece on `cell`, shown by
/// `edge`, has become `value`, which has a core id, and nothing else has
/// changed but the marks of the two pieces.
pub open spec fn shaken_at(
    links: Seq<[Option<usize>; 6]>,
    core: Seq<i32>,
    before: (Seq<[i32; 6]>, Seq<bool>),
    after: (Seq<[i32; 6]>, Seq<bool>),
    edge: Edge,
    value: i32,
) -> bool {
    let (cell, nb, dir) = edge;
    &&& joins(links, edge)
    &&& is_core_side(links, core, before.0, cell as int, dir as int)
    &&& core.contains(magnitude(value) as i32)
    &&& shows(after.0, edge, value as int)
    &&& forall|c: int, d: int|
        0 <= c < before.0.len() && 0 <= d < 6 && !(c == cell && d == dir) && !(c == nb && d == opposite(dir as int))
            ==> (#[trigger] after.0[c]@[d]) == before.0[c]@[d]
    &&& after.1 == before.1.update(cell as int, after.1[cell as int]).update(nb as int, after.1[nb as int])
}

/// Gives a random side of a piece that has a core id a random core id, if
/// there is one. The draws can give it the value that it had.
fn shake<G, B: Fn(&[i32; 6]) -> Option<G>>(
    links: &Links,
    core: &Vec<i32>,
    rows: &mut Vec<[i32; 6]>,
    valid: &mut Vec<bool>,
    cell: usize,
    memo: &mut GeomMemo<G>,
    build: &B,
    rng: &mut StdRng,
    Ghost(start): Ghost<Seq<[i32; 6]>>,
)
    requires
        old(memo).wf(),
        forall|canon: &[i32; 6]| #[trigger] build.requires((canon,)),
        links_in_range(links@),
        links_mutual(links@),
        cell < links.len(),
        core.len() > 0,
        forall|i: int| 0 <= i < core.len() ==> #[trigger] core@[i] > 0,
        in_repair(links@, core@, start, old(memo).cache@, old(rows)@, old(valid)@),
    ensures
        final(memo).wf(),
        final(memo).edge_meta == old(memo).edge_meta,
        memo_grew(old(memo).cache@, final(memo).cache@, *build),
        in_repair(links@, core@, start, final(memo).cache@, final(rows)@, final(valid)@),
        final(valid).len() == old(valid).len(),
        if exists|dir: int| 0 <= dir < 6 && #[trigger] is_core_side(links@, core@, old(rows)@, cell as int, dir) {
            exists|edge: Edge, value: i32|
                edge.0 == cell && #[trigger] shaken_at(
                    links@,
                    core@,
                    (old(rows)@, old(valid)@),
                    (final(rows)@, final(valid)@),
                    edge,
                    value,
                ) && shake_drawn(
                    *old(rng),
                    *final(rng),
                    links@,
                    core@,
                    old(rows)@,
                    cell as int,
                    edge,
                    value,
                )
        } else {
            &&& forall|edge: Edge, value: i32| #[trigger]
                shake_drawn(*old(rng), *final(rng), links@, core@, old(rows)@, cell as int, edge, value)
            &&&
            final(rows)@ == old(rows)@ && final(valid)@ == old(valid)@ && final(memo).cache@ == old(memo).cache@
        },
{
    let sides: Vec<(usize, usize)> = core_sides(links, core, rows, cell);
    let side: Option<(usize, usize)> = next_item(sides.as_slice(), rng);
    let ghost mid = *rng;
    if let Some((dir, nb)) = side {
        assert(sides@.contains((dir, nb)));
        let ghost i = choose|i: int| 0 <= i < sides@.len() && sides@[i] == (dir, nb);
        assert(sides@[i] == (dir, nb));
        let new_id: i32 = match next_item(core.as_slice(), rng) {
            Some(id) => id,
            None => 1,
        };
        assert(new_id > 0) by {
            let k = choose|k: int| 0 <= k < core@.len() && core@[k] == new_id;
            assert(core@[k] > 0);
        }
        let ghost last = *rng;
        let heads: bool = next_coin(rng);
        let value: i32 = signed(new_id, !heads);
        proof {
            let edge: Edge = (cell, nb, dir);
            assert(lists_core_sides(links@, core@, rows@, cell as int, sides@));
            assert(gave_item(*old(rng), mid, sides@, Some((edge.2, edge.1))) && gave_item(
                mid,
                last,
                core@,
                Some(new_id),
            ) && gave_coin(last, *rng, heads));
            assert(shake_drawn(*old(rng), *rng, links@, core@, rows@, cell as int, edge, value));
        }
        assert(joins(links@, (cell, nb, dir)));
        assert(links@[cell as int]@[dir as int] is Some);
        change_edge(links, rows, valid, cell, nb, dir, value, memo, build, Ghost(core@), Ghost(start));
        proof {
            assert(is_core_side(links@, core@, old(rows)@, cell as int, dir as int));
            assert(shaken_at(
                links@,
                core@,
                (old(rows)@, old(valid)@),
                (rows@, valid@),
                (cell, nb, dir),
                value,
            ));
        }
    } else {
        assert(lists_core_sides(links@, core@, rows@, cell as int, sides@));
    }
}

/// Where a mark is not set, a piece is not valid.
proof fn lemma_some_invalid<G>(memo: Map<Seq<i32>, Option<G>>, rows: Seq<[i32; 6]>, valid: Seq<bool>)
    requires
        marks_valid(memo, rows, valid),
        unset(valid) > 0,
    ensures
        !(forall|c: int| 0 <= c < rows.len() ==> valid_in(memo, (#[trigger] rows[c])@)),
{
    lemma_unset_all(valid);
    let c = choose|c: int| 0 <= c < valid.len() && !#[trigger] valid[c];
    assert(!valid_in(memo, rows[c]@));
}

/// There is no best move only if there is no move.
proof fn lemma_no_moves(moves: Seq<Move>)
    requires
        best_move(moves) is None,
    ensures
        moves.len() == 0,
{
}

/// The best move is one of the moves.
proof fn lemma_best_in(moves: Seq<Move>)
    requires
        best_move(moves) is Some,
    ensures
        moves.contains(best_move(moves)->0),
    decreases moves.len(),
{
    let front = moves.drop_last();
    assert(moves[moves.len() - 1] == moves.last());
    if best_move(front) is Some {
        lemma_best_in(front);
        let i = choose|i: int| 0 <= i < front.len() && front[i] == best_move(front)->0;
        assert(moves[i] == front[i]);
    }
}

/// A legal change keeps the id, or puts a core id for a core id.
proof fn lemma_legal_kin(links: Seq<[Option<usize>; 6]>, core: Seq<i32>, rows: Seq<[i32; 6]>, cell: int, mv: Move)
    requires
        legal_move(links, core, rows, cell, mv),
    ensures
        kin(core, rows[cell]@[mv.dir as int], mv.value),
{
    let old_value = rows[cell]@[mv.dir as int];
    if mv.value != -old_value {
        let near = near_core(core);
        let i = choose|i: int| 0 <= i < near.len() && near[i] == magnitude(mv.value) as i32;
        assert(core[i] == near[i]);
    }
}

/// Whether a piece cannot be changed: no side toward a neighbour has a value.
pub open spec fn is_stuck(links: Seq<[Option<usize>; 6]>, rows: Seq<[i32; 6]>, cell: int) -> bool {
    forall|dir: int| 0 <= dir < 6 && links[cell]@[dir] is Some ==> (#[trigger] rows[cell]@[dir]) == 0
}

/// Where a repair stands: the edge values, the marks of the valid pieces, the
/// cells waiting to be repaired, and the steps without success.
pub struct RepairState {
    pub rows: Seq<[i32; 6]>,
    pub valid: Seq<bool>,
    pub waiting: Seq<usize>,
    pub stagnation: int,
}

/// What is done in a step: the cell, the ids drawn for its sides, the moves
/// considered, the state once the best of them is laid, and the edge that is
/// shaken with its new value, if one is.
pub struct RepairStep {
    pub cell: int,
    pub drawn: Seq<[i32; 3]>,
    pub moves: Seq<Move>,
    pub laid: RepairState,
    pub edge: Edge,
    pub value: i32,
}

/// Whether a cell is next: the last one waiting, or the first one whose piece
/// is not valid if none is waiting.
pub open spec fn is_next(s: RepairState, cell: int) -> bool {
    if s.waiting.len() > 0 {
        cell == s.waiting.last()
    } else {
        &&& 0 <= cell < s.valid.len()
        &&& !s.valid[cell]
        &&& forall|c: int| 0 <= c < cell ==> #[trigger] s.valid[c]
    }
}

/// The cells that wait on once the next one is taken.
pub open spec fn still_waiting(s: RepairState) -> Seq<usize> {
    if s.waiting.len() > 0 {
        s.waiting.drop_last()
    } else {
        s.waiting
    }
}

/// Whether `t` is `s` with a move laid on a cell: the edge has its value, and
/// of the two pieces those that are not valid then wait.
pub open spec fn laid_move(s: RepairState, cell: int, mv: Move, t: RepairState) -> bool {
    let nb = mv.nb as int;
    let rest = still_waiting(s);
    let with_cell = if t.valid[cell] {
        rest
    } else {
        rest.push(cell as usize)
    };
    &&& t.rows.len() == s.rows.len()
    &&& shows(t.rows, (cell as usize, mv.nb, mv.dir), mv.value as int)
    &&& forall|c: int, d: int|
        0 <= c < s.rows.len() && 0 <= d < 6 && !(c == cell && d == mv.dir) && !(c == nb && d == opposite(mv.dir as int))
            ==> (#[trigger] t.rows[c]@[d]) == s.rows[c]@[d]
    &&& t.waiting == if t.valid[nb] {
        with_cell
    } else {
        with_cell.push(mv.nb)
    }
    &&& t.stagnation == if t.valid[cell] {
        0
    } else {
        s.stagnation + 1
    }
}

/// Whether the piece on `cell` has a side with a core id toward a neighbour.
pub open spec fn has_core_side(links: Seq<[Option<usize>; 6]>, core: Seq<i32>, rows: Seq<[i32; 6]>, cell: int) -> bool {
    exists|dir: int| 0 <= dir < 6 && #[trigger] is_core_side(links, core, rows, cell, dir)
}

/// Whether `t` is `s` with a core side of the piece on `cell` given a core
/// id, if it has one, and every invalid piece waiting.
pub open spec fn shaken_state(
    links: Seq<[Option<usize>; 6]>,
    core: Seq<i32>,
    s: RepairState,
    cell: int,
    edge: Edge,
    value: i32,
    t: RepairState,
) -> bool {
    &&& if has_core_side(links, core, s.rows, cell) {
        edge.0 == cell && shaken_at(links, core, (s.rows, s.valid), (t.rows, t.valid), edge, value)
    } else {
        t.rows == s.rows && t.valid == s.valid
    }
    &&& t.rows.len() == s.rows.len()
    &&& t.waiting == invalid_below(t.valid, t.valid.len() as int)
    &&& t.stagnation == 0
}

/// Whether a step leads from `s` to `t`: the next cell is passed over if its
/// piece has become valid; otherwise the best of the moves considered is
/// laid, and if too many steps had no success, a side of the piece is shaken.
pub open spec fn repair_step<G, P: Fn(i64, &Profile, &Profile) -> u64>(
    links: Seq<[Option<usize>; 6]>,
    core: Seq<i32>,
    rate: P,
    memo: Map<Seq<i32>, Option<G>>,
    targets: Seq<usize>,
    s: RepairState,
    step: RepairStep,
    t: RepairState,
) -> bool {
    &&& is_next(s, step.cell)
    &&& 0 <= step.cell < s.rows.len()
    &&& if s.valid[step.cell] {
        t == (RepairState { waiting: still_waiting(s), ..s })
    } else {
        &&& swaps_near(links, core, s.rows, step.cell, step.drawn)
        &&& considers(links, core, rate, memo, s.rows, s.valid, targets, step.cell, step.drawn, step.moves)
        &&& best_move(step.moves) is Some
        &&& laid_move(s, step.cell, best_move(step.moves)->0, step.laid)
        &&& marks_valid(memo, step.laid.rows, step.laid.valid)
        &&& if step.laid.stagnation > PATIENCE {
            shaken_state(links, core, step.laid, step.cell, step.edge, step.value, t)
        } else {
            t == step.laid
        }
    }
}

/// Whether `trace` are the states of a repair that began with `before`, and
/// `steps` lead from each to the next.
pub open spec fn repair_run<G, P: Fn(i64, &Profile, &Profile) -> u64>(
    links: Seq<[Option<usize>; 6]>,
    core: Seq<i32>,
    rate: P,
    memo: Map<Seq<i32>, Option<G>>,
    targets: Seq<usize>,
    before: Seq<[i32; 6]>,
    trace: Seq<RepairState>,
    steps: Seq<RepairStep>,
) -> bool {
    &&& trace.len() == steps.len() + 1
    &&& trace[0].rows == before
    &&& trace[0].waiting == invalid_below(trace[0].valid, trace[0].valid.len() as int)
    &&& trace[0].stagnation == 0
    &&& forall|i: int| 0 <= i < trace.len() ==> marks_valid(memo, (#[trigger] trace[i]).rows, trace[i].valid)
    &&& forall|i: int| 0 <= i < steps.len() ==> unset((#[trigger] trace[i]).valid) > 0
    &&& forall|i: int|
        0 <= i < steps.len() ==> repair_step(
            links,
            core,
            rate,
            memo,
            targets,
            trace[i],
            #[trigger] steps[i],
            trace[i + 1],
        )
}

/// Whether a repair that took `steps` and came from `before` to `after` ends
/// so: with every piece valid, with all steps taken and pieces left that are
/// not valid, or with a piece next that is not valid and cannot be changed.
pub open spec fn repair_ended<G, P: Fn(i64, &Profile, &Profile) -> u64>(
    links: Seq<[Option<usize>; 6]>,
    core: Seq<i32>,
    rate: P,
    memo: Map<Seq<i32>, Option<G>>,
    targets: Seq<usize>,
    before: Seq<[i32; 6]>,
    after: Seq<[i32; 6]>,
    max_retries: int,
    result: Result<usize, GeneratorError>,
    trace: Seq<RepairState>,
    steps: Seq<RepairStep>,
) -> bool {
    let last = trace.last();
    &&& repair_run(links, core, rate, memo, targets, before, trace, steps)
    &&& last.rows == after
    &&& match result {
        Ok(taken) => taken == steps.len() && taken <= max_retries && unset(last.valid) == 0,
        Err(GeneratorError::NoMoves) => {
            &&& steps.len() < max_retries
            &&& unset(last.valid) > 0
            &&& exists|cell: int| 0 <= cell < after.len() && #[trigger] is_next(last, cell) && !last.valid[cell] && is_stuck(links, after, cell)
        },
        Err(GeneratorError::StillInvalid(count)) => {
            &&& steps.len() == max_retries
            &&& count == unset(last.valid)
            &&& count > 0
        },
        _ => false,
    }
}

/// A memo that knows more rates the same moves.
proof fn lemma_considers_kept<G, P: Fn(i64, &Profile, &Profile) -> u64, B: Fn(&[i32; 6]) -> Option<G>>(
    links: Seq<[Option<usize>; 6]>,
    core: Seq<i32>,
    rate: P,
    build: B,
    before: Map<Seq<i32>, Option<G>>,
    after: Map<Seq<i32>, Option<G>>,
    rows: Seq<[i32; 6]>,
    valid: Seq<bool>,
    targets: Seq<usize>,
    cell: int,
    drawn: Seq<[i32; 3]>,
    moves: Seq<Move>,
)
    requires
        memo_grew(before, after, build),
        considers(links, core, rate, before, rows, valid, targets, cell, drawn, moves),
    ensures
        considers(links, core, rate, after, rows, valid, targets, cell, drawn, moves),
{
    assert forall|i: int| 0 <= i < moves.len() implies legal_move(links, core, rows, cell, #[trigger] moves[i])
        && rated_move(rate, after, rows, valid, targets, cell, moves[i]) by {
        assert(rated_move(rate, before, rows, valid, targets, cell, moves[i]));
    }
}

proof fn lemma_step_kept<G, P: Fn(i64, &Profile, &Profile) -> u64, B: Fn(&[i32; 6]) -> Option<G>>(
    links: Seq<[Option<usize>; 6]>,
    core: Seq<i32>,
    rate: P,
    build: B,
    before: Map<Seq<i32>, Option<G>>,
    after: Map<Seq<i32>, Option<G>>,
    targets: Seq<usize>,
    s: RepairState,
    step: RepairStep,
    t: RepairState,
)
    requires
        memo_grew(before, after, build),
        repair_step(links, core, rate, before, targets, s, step, t),
    ensures
        repair_step(links, core, rate, after, targets, s, step, t),
{
    if !s.valid[step.cell] {
        lemma_considers_kept(
            links,
            core,
            rate,
            build,
            before,
            after,
            s.rows,
            s.valid,
            targets,
            step.cell,
            step.drawn,
            step.moves,
        );
        lemma_marks_kept(before, after, build, step.laid.rows, step.laid.valid);
    }
}

/// A repair stays one as the memo grows.
pub(crate) proof fn lemma_run_kept<G, P: Fn(i64, &Profile, &Profile) -> u64, B: Fn(&[i32; 6]) -> Option<G>>(
    links: Seq<[Option<usize>; 6]>,
    core: Seq<i32>,
    rate: P,
    build: B,
    before: Map<Seq<i32>, Option<G>>,
    after: Map<Seq<i32>, Option<G>>,
    targets: Seq<usize>,
    start: Seq<[i32; 6]>,
    trace: Seq<RepairState>,
    steps: Seq<RepairStep>,
)
    requires
        memo_grew(before, after, build),
        repair_run(links, core, rate, before, targets, start, trace, steps),
    ensures
        repair_run(links, core, rate, after, targets, start, trace, steps),
{
    assert forall|i: int| 0 <= i < trace.len() implies marks_valid(after, (#[trigger] trace[i]).rows, trace[i].valid) by {
        lemma_marks_kept(before, after, build, trace[i].rows, trace[i].valid);
    }
    assert forall|i: int| 0 <= i < steps.len() implies repair_step(
        links,
        core,
        rate,
        after,
        targets,
        trace[i],
        #[trigger] steps[i],
        trace[i + 1],
    ) by {
        lemma_step_kept(links, core, rate, build, before, after, targets, trace[i], steps[i], trace[i + 1]);
    }
}

/// Another step was taken.
proof fn lemma_run_grows<G, P: Fn(i64, &Profile, &Profile) -> u64>(
    links: Seq<[Option<usize>; 6]>,
    core: Seq<i32>,
    rate: P,
    memo: Map<Seq<i32>, Option<G>>,
    targets: Seq<usize>,
    start: Seq<[i32; 6]>,
    trace: Seq<RepairState>,
    steps: Seq<RepairStep>,
    step: RepairStep,
    t: RepairState,
)
    requires
        repair_run(links, core, rate, memo, targets, start, trace, steps),
        unset(trace.last().valid) > 0,
        repair_step(links, core, rate, memo, targets, trace.last(), step, t),
        marks_valid(memo, t.rows, t.valid),
    ensures
        repair_run(links, core, rate, memo, targets, start, trace.push(t), steps.push(step)),
{
    let more = trace.push(t);
    let taken = steps.push(step);
    assert forall|i: int| 0 <= i < taken.len() implies unset((#[trigger] more[i]).valid) > 0 by {
        if i < steps.len() {
            assert(more[i] == trace[i]);
        } else {
            assert(more[i] == trace.last());
        }
    }
    assert forall|i: int| 0 <= i < more.len() implies marks_valid(memo, (#[trigger] more[i]).rows, more[i].valid) by {
        if i < trace.len() {
            assert(more[i] == trace[i]);
        }
    }
    assert forall|i: int| 0 <= i < taken.len() implies repair_step(
        links,
        core,
        rate,
        memo,
        targets,
        more[i],
        #[trigger] taken[i],
        more[i + 1],
    ) by {
        if i < steps.len() {
            assert(taken[i] == steps[i]);
            assert(more[i] == trace[i] && more[i + 1] == trace[i + 1]);
        } else {
            assert(more[i] == trace.last());
        }
    }
}

/// Whether what is drawn in a step is what generator `before` gives, and the
/// generator is `after` then: the ids to replace core ids by, and a shake if
/// it comes to one.
pub open spec fn step_drawn(
    before: StdRng,
    after: StdRng,
    links: Seq<[Option<usize>; 6]>,
    core: Seq<i32>,
    s: RepairState,
    step: RepairStep,
) -> bool {
    if s.valid[step.cell] {
        after == before
    } else {
        exists|mid: StdRng| #[trigger] step_parts_drawn(before, mid, after, links, core, s, step)
    }
}

/// The same for a step that changes a piece, with the generator between its
/// two parts.
pub open spec fn step_parts_drawn(
    before: StdRng,
    mid: StdRng,
    after: StdRng,
    links: Seq<[Option<usize>; 6]>,
    core: Seq<i32>,
    s: RepairState,
    step: RepairStep,
) -> bool {
    &&& swaps_drawn(before, mid, links, core, s.rows, step.cell, step.drawn, 18)
    &&& if step.laid.stagnation > 500 {
        shake_drawn(mid, after, links, core, step.laid.rows, step.cell, step.edge, step.value)
    } else {
        after == mid
    }
}

/// The same for the first `k` steps in turn.
pub open spec fn steps_drawn(
    before: StdRng,
    after: StdRng,
    links: Seq<[Option<usize>; 6]>,
    core: Seq<i32>,
    trace: Seq<RepairState>,
    steps: Seq<RepairStep>,
    k: int,
) -> bool
    decreases k,
{
    if k <= 0 {
        before == after
    } else {
        exists|mid: StdRng, s: RepairState, step: RepairStep| #[trigger]
            step_drawn(mid, after, links, core, s, step) && s == trace[k - 1] && step == steps[k - 1] && steps_drawn(
                before,
                mid,
                links,
                core,
                trace,
                steps,
                k - 1,
            )
    }
}

proof fn lemma_steps_prefix(
    before: StdRng,
    after: StdRng,
    links: Seq<[Option<usize>; 6]>,
    core: Seq<i32>,
    trace: Seq<RepairState>,
    steps: Seq<RepairStep>,
    state: RepairState,
    step: RepairStep,
    k: int,
)
    requires
        steps_drawn(before, after, links, core, trace, steps, k),
        k <= trace.len(),
        k <= steps.len(),
    ensures
        steps_drawn(before, after, links, core, trace.push(state), steps.push(step), k),
    decreases k,
{
    if k > 0 {
        let (mid, s, last) = choose|mid: StdRng, s: RepairState, last: RepairStep| #[trigger]
            step_drawn(mid, after, links, core, s, last) && s == trace[k - 1] && last == steps[k - 1] && steps_drawn(
                before,
                mid,
                links,
                core,
                trace,
                steps,
                k - 1,
            );
        lemma_steps_prefix(before, mid, links, core, trace, steps, state, step, k - 1);
        assert(trace.push(state)[k - 1] == s && steps.push(step)[k - 1] == last);
        assert(step_drawn(mid, after, links, core, s, last));
    }
}

/// Takes one step of a repair. `None` means that the next piece is not valid
/// and cannot be changed.
fn repair_once<G, B: Fn(&[i32; 6]) -> Option<G>, P: Fn(i64, &Profile, &Profile) -> u64>(
    links: &Links,
    rows: &mut Vec<[i32; 6]>,
    core: &Vec<i32>,
    near: &Vec<i32>,
    targets: &Vec<usize>,
    valid: &mut Vec<bool>,
    waiting: &mut Vec<usize>,
    stagnation: &mut usize,
    invalid_count: &mut usize,
    memo: &mut GeomMemo<G>,
    build: &B,
    rate: &P,
    rng: &mut StdRng,
    Ghost(start): Ghost<Seq<[i32; 6]>>,
) -> (taken: Option<Ghost<RepairStep>>)
    requires
        old(memo).wf(),
        forall|canon: &[i32; 6]| #[trigger] build.requires((canon,)),
        forall|n: i64, pa: &Profile, pb: &Profile| #[trigger] rate.requires((n, pa, pb)),
        links_in_range(links@),
        links_mutual(links@),
        core.len() > 0,
        forall|i: int| 0 <= i < core.len() ==> #[trigger] core@[i] > 0,
        near@ == near_core(core@),
        targets.len() == links.len(),
        forall|c: int| 0 <= c < targets.len() ==> #[trigger] targets@[c] <= 3,
        in_repair(links@, core@, start, old(memo).cache@, old(rows)@, old(valid)@),
        *old(invalid_count) == unset(old(valid)@),
        *old(invalid_count) > 0,
        forall|i: int| 0 <= i < old(waiting).len() ==> (#[trigger] old(waiting)@[i]) < links.len(),
        *old(stagnation) <= PATIENCE,
    ensures
        final(memo).wf(),
        final(memo).edge_meta == old(memo).edge_meta,
        memo_grew(old(memo).cache@, final(memo).cache@, *build),
        in_repair(links@, core@, start, final(memo).cache@, final(rows)@, final(valid)@),
        match taken {
            Some(step) => {
                &&& *final(invalid_count) == unset(final(valid)@)
                &&& forall|i: int| 0 <= i < final(waiting).len() ==> (#[trigger] final(waiting)@[i]) < links.len()
                &&& *final(stagnation) <= PATIENCE
                &&& repair_step(
                    links@,
                    core@,
                    *rate,
                    final(memo).cache@,
                    targets@,
                    RepairState {
                        rows: old(rows)@,
                        valid: old(valid)@,
                        waiting: old(waiting)@,
                        stagnation: *old(stagnation) as int,
                    },
                    step@,
                    RepairState {
                        rows: final(rows)@,
                        valid: final(valid)@,
                        waiting: final(waiting)@,
                        stagnation: *final(stagnation) as int,
                    },
                )
                &&& step_drawn(
                    *old(rng),
                    *final(rng),
                    links@,
                    core@,
                    RepairState {
                        rows: old(rows)@,
                        valid: old(valid)@,
                        waiting: old(waiting)@,
                        stagnation: *old(stagnation) as int,
                    },
                    step@,
                )
            },
            None => {
                &&& final(rows)@ == old(rows)@
                &&& exists|cell: int|
                    0 <= cell < old(rows).len() && #[trigger] is_next(
                        RepairState {
                            rows: old(rows)@,
                            valid: old(valid)@,
                            waiting: old(waiting)@,
                            stagnation: *old(stagnation) as int,
                        },
                        cell,
                    ) && !old(valid)@[cell] && is_stuck(links@, old(rows)@, cell)
            },
        },
{
    let ghost s = RepairState { rows: rows@, valid: valid@, waiting: waiting@, stagnation: *stagnation as int };
    let ghost m0 = memo.cache@;
    let listed: Option<usize> = waiting.pop();
    let cell: usize = match listed {
        Some(c) => c,
        None => first_invalid(valid),
    };
    assert(is_next(s, cell as int));
    assert(waiting@ =~= still_waiting(s));
    let ghost mut step = RepairStep {
        cell: cell as int,
        drawn: Seq::empty(),
        moves: Seq::empty(),
        laid: s,
        edge: (cell, cell, 0),
        value: 0,
    };
    if valid[cell] {
        return Some(Ghost(step));
    }
    let drawn: [[i32; 3]; 6] = draw_swaps(links, core, near, rows, cell, rng);
    let ghost source = *rng;
    assert(swaps_drawn(*old(rng), source, links@, core@, s.rows, cell as int, drawn@, 18));
    let best: Option<Move> = find_move(links, core, rows, valid, targets, cell, &drawn, memo, build, rate);
    let ghost m1 = memo.cache@;
    let ghost moves = choose|moves: Seq<Move>| #[trigger]
        considers(links@, core@, *rate, m1, rows@, valid@, targets@, cell as int, drawn@, moves) && best == best_move(
            moves,
        );
    proof {
        lemma_marks_kept(m0, m1, *build, rows@, valid@);
    }
    let mv: Move = match best {
        Some(mv) => mv,
        None => {
            proof {
                lemma_no_moves(moves);
                assert(is_stuck(links@, rows@, cell as int)) by {
                    assert forall|dir: int| 0 <= dir < 6 && links@[cell as int]@[dir] is Some implies (#[trigger] rows@[cell as int]@[dir]) == 0 by {
                        if rows@[cell as int]@[dir] != 0 {
                            assert(turns_side(moves, dir, rows@[cell as int]@[dir]));
                        }
                    }
                }
            }
            return None;
        },
    };
    proof {
        lemma_best_in(moves);
        let i = choose|i: int| 0 <= i < moves.len() && moves[i] == mv;
        assert(legal_move(links@, core@, rows@, cell as int, moves[i]));
        assert(links@[cell as int]@[mv.dir as int] is Some);
        assert(joins(links@, (cell, mv.nb, mv.dir)));
        lemma_legal_kin(links@, core@, rows@, cell as int, mv);
        lemma_edge_back(links@, (cell, mv.nb, mv.dir));
    }
    let ghost marks = valid@;
    let was_nb: bool = valid[mv.nb];
    change_edge(links, rows, valid, cell, mv.nb, mv.dir, mv.value, memo, build, Ghost(core@), Ghost(start));
    let ghost m2 = memo.cache@;
    proof {
        lemma_memo_grew(m0, m1, m2, *build);
        lemma_considers_kept(
            links@,
            core@,
            *rate,
            *build,
            m1,
            m2,
            s.rows,
            s.valid,
            targets@,
            cell as int,
            drawn@,
            moves,
        );
        lemma_unset_changed(marks, cell as int, valid@[cell as int]);
        lemma_unset_changed(
            marks.update(cell as int, valid@[cell as int]),
            mv.nb as int,
            valid@[mv.nb as int],
        );
        lemma_unset_all(valid@);
    }
    if valid[cell] {
        *invalid_count = *invalid_count - 1;
        *stagnation = 0;
    } else {
        *stagnation = *stagnation + 1;
        waiting.push(cell);
    }
    if was_nb && !valid[mv.nb] {
        *invalid_count = *invalid_count + 1;
    }
    if !was_nb && valid[mv.nb] {
        *invalid_count = *invalid_count - 1;
    }
    if !valid[mv.nb] {
        waiting.push(mv.nb);
    }
    let ghost laid = RepairState { rows: rows@, valid: valid@, waiting: waiting@, stagnation: *stagnation as int };
    proof {
        assert(laid_move(s, cell as int, mv, laid));
        step = RepairStep { cell: cell as int, drawn: drawn@, moves, laid, edge: step.edge, value: 0 };
    }
    if *stagnation > PATIENCE {
        *stagnation = 0;
        shake(links, core, rows, valid, cell, memo, build, rng, Ghost(start));
        *waiting = list_invalid(valid);
        *invalid_count = waiting.len();
        proof {
            let m3 = memo.cache@;
            lemma_memo_grew(m0, m2, m3, *build);
            lemma_considers_kept(
                links@,
                core@,
                *rate,
                *build,
                m2,
                m3,
                s.rows,
                s.valid,
                targets@,
                cell as int,
                drawn@,
                moves,
            );
            lemma_marks_kept(m2, m3, *build, laid.rows, laid.valid);
            if has_core_side(links@, core@, laid.rows, cell as int) {
                let (edge, value) = choose|edge: Edge, value: i32|
                    edge.0 == cell && #[trigger] shaken_at(
                        links@,
                        core@,
                        (laid.rows, laid.valid),
                        (rows@, valid@),
                        edge,
                        value,
                    ) && shake_drawn(source, *rng, links@, core@, laid.rows, cell as int, edge, value);
                step = RepairStep { cell: cell as int, drawn: drawn@, moves, laid, edge, value };
            }
            assert(shake_drawn(source, *rng, links@, core@, laid.rows, cell as int, step.edge, step.value));
        }
    }
    assert(step_parts_drawn(*old(rng), source, *rng, links@, core@, s, step));
    Some(Ghost(step))
}

/// Where the repair of pieces has come to.
pub open spec fn repair_outcome<G>(
    links: Seq<[Option<usize>; 6]>,
    memo: Map<Seq<i32>, Option<G>>,
    before: Seq<[i32; 6]>,
    after: Seq<[i32; 6]>,
    max_retries: int,
    result: Result<usize, GeneratorError>,
) -> bool {
    match result {
        Ok(steps) => {
            &&& steps <= max_retries
            &&& forall|c: int| 0 <= c < after.len() ==> valid_in(memo, (#[trigger] after[c])@)
            &&& steps == 0 ==> after == before
        },
        Err(GeneratorError::NoMoves) => exists|c: int|
            0 <= c < after.len() && !valid_in(memo, (#[trigger] after[c])@) && is_stuck(links, after, c),
        Err(GeneratorError::StillInvalid(count)) => exists|valid: Seq<bool>| #[trigger]
            marks_valid(memo, after, valid) && unset(valid) == count && count > 0,
        _ => false,
    }
}

/// Changes edges until every piece has a valid outline, or the steps run out.
pub fn repair_geometry<G, B: Fn(&[i32; 6]) -> Option<G>, P: Fn(i64, &Profile, &Profile) -> u64>(
    links: &Links,
    rows: &mut Vec<[i32; 6]>,
    core: &Vec<i32>,
    targets: &Vec<usize>,
    max_retries: usize,
    memo: &mut GeomMemo<G>,
    build: &B,
    rate: &P,
    rng: &mut StdRng,
) -> (result: Result<usize, GeneratorError>)
    requires
        old(memo).wf(),
        forall|canon: &[i32; 6]| #[trigger] build.requires((canon,)),
        forall|n: i64, pa: &Profile, pb: &Profile| #[trigger] rate.requires((n, pa, pb)),
        links_in_range(links@),
        links_mutual(links@),
        cancels(links@, old(rows)@),
        negatable(old(rows)@),
        core.len() > 0,
        forall|i: int| 0 <= i < core.len() ==> #[trigger] core@[i] > 0,
        targets.len() == links.len(),
        forall|c: int| 0 <= c < targets.len() ==> #[trigger] targets@[c] <= 3,
    ensures
        final(memo).wf(),
        final(memo).edge_meta == old(memo).edge_meta,
        memo_grew(old(memo).cache@, final(memo).cache@, *build),
        cancels(links@, final(rows)@),
        negatable(final(rows)@),
        keeps_ids(links@, core@, old(rows)@, final(rows)@),
        exists|trace: Seq<RepairState>, steps: Seq<RepairStep>| #[trigger]
            repair_ended(
                links@,
                core@,
                *rate,
                final(memo).cache@,
                targets@,
                old(rows)@,
                final(rows)@,
                max_retries as int,
                result,
                trace,
                steps,
            ) && (result != Err::<usize, GeneratorError>(GeneratorError::NoMoves) ==> steps_drawn(
                *old(rng),
                *final(rng),
                links@,
                core@,
                trace,
                steps,
                steps.len() as int,
            )),
        repair_outcome(links@, final(memo).cache@, old(rows)@, final(rows)@, max_retries as int, result),
        max_retries == 0 ==> final(rows)@ == old(rows)@,
        forall|c: int| 0 <= c < old(rows).len() ==> judged(final(memo).cache@, (#[trigger] old(rows)@[c])@),
        (forall|c: int| 0 <= c < old(rows).len() ==> valid_in(final(memo).cache@, (#[trigger] old(rows)@[c])@))
            <==> result == Ok::<usize, GeneratorError>(0),
{
    let ghost start = rows@;
    let ghost first = memo.cache@;
    let near: Vec<i32> = part(core, 0, if core.len() < NEAR_CORE { core.len() } else { NEAR_CORE });
    let mut valid: Vec<bool> = judge_all(rows, memo, build);
    let mut waiting: Vec<usize> = list_invalid(&valid);
    let mut invalid_count: usize = waiting.len();
    let mut taken: usize = 0;
    let mut stagnation: usize = 0;
    let ghost mut trace: Seq<RepairState> = seq![
        RepairState { rows: rows@, valid: valid@, waiting: waiting@, stagnation: 0 },
    ];
    let ghost mut steps: Seq<RepairStep> = Seq::empty();
    while invalid_count > 0 && taken < max_retries
        invariant
            memo.wf(),
            memo.edge_meta == old(memo).edge_meta,
            first == old(memo).cache@,
            start == old(rows)@,
            memo_grew(first, memo.cache@, *build),
            forall|canon: &[i32; 6]| #[trigger] build.requires((canon,)),
            forall|n: i64, pa: &Profile, pb: &Profile| #[trigger] rate.requires((n, pa, pb)),
            links_in_range(links@),
            links_mutual(links@),
            core.len() > 0,
            forall|i: int| 0 <= i < core.len() ==> #[trigger] core@[i] > 0,
            near@ == near_core(core@),
            targets.len() == links.len(),
            forall|c: int| 0 <= c < targets.len() ==> #[trigger] targets@[c] <= 3,
            in_repair(links@, core@, start, memo.cache@, rows@, valid@),
            invalid_count == unset(valid@),
            forall|i: int| 0 <= i < waiting.len() ==> (#[trigger] waiting@[i]) < links.len(),
            taken <= max_retries,
            taken == steps.len(),
            stagnation <= PATIENCE,
            repair_run(links@, core@, *rate, memo.cache@, targets@, start, trace, steps),
            steps_drawn(*old(rng), *rng, links@, core@, trace, steps, steps.len() as int),
            trace.last() == (RepairState {
                rows: rows@,
                valid: valid@,
                waiting: waiting@,
                stagnation: stagnation as int,
            }),
        decreases max_retries - taken,
    {
        let ghost before = memo.cache@;
        let ghost last = trace.last();
        let ghost source = *rng;
        let once: Option<Ghost<RepairStep>> = repair_once(
            links,
            rows,
            core,
            &near,
            targets,
            &mut valid,
            &mut waiting,
            &mut stagnation,
            &mut invalid_count,
            memo,
            build,
            rate,
            rng,
            Ghost(start),
        );
        proof {
            lemma_memo_grew(first, before, memo.cache@, *build);
            lemma_run_kept(
                links@,
                core@,
                *rate,
                *build,
                before,
                memo.cache@,
                targets@,
                start,
                trace,
                steps,
            );
        }
        match once {
            Some(once) => {
                taken = taken + 1;
                proof {
                    let step = once@;
                    let t = RepairState {
                        rows: rows@,
                        valid: valid@,
                        waiting: waiting@,
                        stagnation: stagnation as int,
                    };
                    lemma_run_grows(
                        links@,
                        core@,
                        *rate,
                        memo.cache@,
                        targets@,
                        start,
                        trace,
                        steps,
                        step,
                        t,
                    );
                    lemma_steps_prefix(
                        *old(rng),
                        source,
                        links@,
                        core@,
                        trace,
                        steps,
                        t,
                        step,
                        steps.len() as int,
                    );
                    trace = trace.push(t);
                    steps = steps.push(step);
                    assert(trace[steps.len() - 1] == last);
                    assert(step_drawn(source, *rng, links@, core@, last, step));
                }
            },
            None => {
                let result: Result<usize, GeneratorError> = Err(GeneratorError::NoMoves);
                proof {
                    assert(repair_ended(
                        links@,
                        core@,
                        *rate,
                        memo.cache@,
                        targets@,
                        start,
                        rows@,
                        max_retries as int,
                        result,
                        trace,
                        steps,
                    ));
                    lemma_ended(
                        links@,
                        core@,
                        *rate,
                        memo.cache@,
                        targets@,
                        start,
                        rows@,
                        max_retries as int,
                        result,
                        trace,
                        steps,
                    );
                }
                return result;
            },
        }
    }
    let result: Result<usize, GeneratorError> = if invalid_count == 0 {
        Ok(taken)
    } else {
        Err(GeneratorError::StillInvalid(invalid_count))
    };
    proof {
        assert(repair_ended(
            links@,
            core@,
            *rate,
            memo.cache@,
            targets@,
            start,
            rows@,
            max_retries as int,
            result,
            trace,
            steps,
        ));
        lemma_ended(
            links@,
            core@,
            *rate,
            memo.cache@,
            targets@,
            start,
            rows@,
            max_retries as int,
            result,
            trace,
            steps,
        );
    }
    result
}

/// What the end of a repair says of the pieces.
proof fn lemma_ended<G, P: Fn(i64, &Profile, &Profile) -> u64>(
    links: Seq<[Option<usize>; 6]>,
    core: Seq<i32>,
    rate: P,
    memo: Map<Seq<i32>, Option<G>>,
    targets: Seq<usize>,
    before: Seq<[i32; 6]>,
    after: Seq<[i32; 6]>,
    max_retries: int,
    result: Result<usize, GeneratorError>,
    trace: Seq<RepairState>,
    steps: Seq<RepairStep>,
)
    requires
        repair_ended(links, core, rate, memo, targets, before, after, max_retries, result, trace, steps),
    ensures
        repair_outcome(links, memo, before, after, max_retries, result),
        max_retries == 0 ==> after == before,
        forall|c: int| 0 <= c < before.len() ==> judged(memo, (#[trigger] before[c])@),
        (forall|c: int| 0 <= c < before.len() ==> valid_in(memo, (#[trigger] before[c])@)) <==> result == Ok::<
            usize,
            GeneratorError,
        >(0),
{
    let opening = trace[0];
    let last = trace.last();
    assert(marks_valid(memo, opening.rows, opening.valid));
    assert(trace[trace.len() - 1] == last);
    assert(marks_valid(memo, last.rows, last.valid));
    lemma_unset_all(last.valid);
    lemma_unset_all(opening.valid);
    if steps.len() > 0 {
        assert(repair_step(links, core, rate, memo, targets, trace[0], steps[0], trace[1]));
        assert(unset(opening.valid) > 0);
    }
    if unset(opening.valid) > 0 {
        lemma_some_invalid(memo, before, opening.valid);
    } else {
        assert forall|c: int| 0 <= c < before.len() implies valid_in(memo, (#[trigger] before[c])@) by {
            assert(opening.valid[c]);
        }
    }
    match result {
        Err(GeneratorError::NoMoves) => {
            let cell = choose|cell: int|
                0 <= cell < after.len() && #[trigger] is_next(last, cell) && !last.valid[cell] && is_stuck(
                    links,
                    after,
                    cell,
                );
            assert(!valid_in(memo, after[cell]@));
        },
        Ok(_) => {
            assert forall|c: int| 0 <= c < after.len() implies valid_in(memo, (#[trigger] after[c])@) by {
                assert(last.valid[c]);
            }
        },
        _ => {},
    }
}

} // verus!
