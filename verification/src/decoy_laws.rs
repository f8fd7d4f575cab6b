//! Which ids the false pieces of a trial have.

use crate::grid::{links_cells, magnitude, opposite, Axial};
use crate::trial::Piece;
use crate::trial_decoys::{attach_ids, decoy_rows, ids_seen, DecoyPlan};
use crate::trial_pieces::{id_count, ids_within};
use vstd::prelude::*;

verus! {

/// Whether some side of the pieces has the id, with either sign.
pub open spec fn shown_by(pieces: Seq<Piece>, id: int) -> bool {
    exists|i: int, dir: int|
        0 <= i < pieces.len() && 0 <= dir < 6 && magnitude(#[trigger] pieces[i].edges@[dir]) == id
}

/// The ids seen on the first sides are those that they have.
proof fn lemma_seen(pieces: Seq<Piece>, n: int)
    requires
        0 <= n <= 6 * pieces.len(),
        forall|i: int, dir: int|
            0 <= i < pieces.len() && 0 <= dir < 6 ==> (#[trigger] pieces[i].edges@[dir]) > i32::MIN,
    ensures
        ids_seen(pieces, n).no_duplicates(),
        forall|id: i32| #[trigger] ids_seen(pieces, n).contains(id) ==> id > 0 && shown_by(pieces, id as int),
        forall|i: int, dir: int|
            0 <= i < pieces.len() && 0 <= dir < 6 && 6 * i + dir < n && (#[trigger] pieces[i].edges@[dir]) != 0
                ==> ids_seen(pieces, n).contains(magnitude(pieces[i].edges@[dir]) as i32),
    decreases n,
{
    if n > 0 {
        lemma_seen(pieces, n - 1);
        let p = (n - 1) / 6;
        let d = (n - 1) % 6;
        let value = pieces[p].edges@[d];
        assert(value > i32::MIN);
        let less = ids_seen(pieces, n - 1);
        let seen = ids_seen(pieces, n);
        let id = magnitude(value) as i32;
        assert forall|x: i32| #[trigger] seen.contains(x) implies x > 0 && shown_by(pieces, x as int) by {
            let i = choose|i: int| 0 <= i < seen.len() && seen[i] == x;
            if i < less.len() {
                assert(less[i] == x);
                assert(less.contains(x));
            } else {
                assert(magnitude(pieces[p].edges@[d]) == x);
            }
        }
        assert forall|i: int, dir: int|
            0 <= i < pieces.len() && 0 <= dir < 6 && 6 * i + dir < n && (#[trigger] pieces[i].edges@[dir]) != 0 implies seen.contains(
            magnitude(pieces[i].edges@[dir]) as i32,
        ) by {
            if 6 * i + dir < n - 1 {
                let x = magnitude(pieces[i].edges@[dir]) as i32;
                assert(less.contains(x));
                let k = choose|k: int| 0 <= k < less.len() && less[k] == x;
                assert(seen[k] == x);
            } else {
                assert(i == p && dir == d);
                if !less.contains(id) {
                    assert(seen[seen.len() - 1] == id);
                }
            }
        }
    }
}

/// False pieces attach with the ids that the true pieces have, each once, or
/// with 1 if they have none.
pub proof fn law_attach_ids(pieces: Seq<Piece>, id: i32)
    requires
        forall|i: int, dir: int|
            0 <= i < pieces.len() && 0 <= dir < 6 ==> (#[trigger] pieces[i].edges@[dir]) > i32::MIN,
    ensures
        attach_ids(pieces).no_duplicates(),
        id > 0 && shown_by(pieces, id as int) ==> attach_ids(pieces).contains(id),
        attach_ids(pieces).contains(id) ==> id > 0 && (shown_by(pieces, id as int) || (id == 1 && forall|other: int|
            other > 0 ==> !#[trigger] shown_by(pieces, other))),
{
    let n = 6 * pieces.len() as int;
    let seen = ids_seen(pieces, n);
    lemma_seen(pieces, n);
    if seen.len() == 0 {
        assert forall|other: int| other > 0 implies !#[trigger] shown_by(pieces, other) by {
            if shown_by(pieces, other) {
                let (i, dir) = choose|i: int, dir: int|
                    0 <= i < pieces.len() && 0 <= dir < 6 && magnitude(#[trigger] pieces[i].edges@[dir]) == other;
                assert(pieces[i].edges@[dir] != 0);
                assert(seen.contains(magnitude(pieces[i].edges@[dir]) as i32));
            }
        }
    }
    if id > 0 && shown_by(pieces, id as int) {
        let (i, dir) = choose|i: int, dir: int|
            0 <= i < pieces.len() && 0 <= dir < 6 && magnitude(#[trigger] pieces[i].edges@[dir]) == id;
        assert(pieces[i].edges@[dir] != 0);
        assert(seen.contains(magnitude(pieces[i].edges@[dir]) as i32));
    }
}

/// Two cells of a false cluster that face each other show an id that the true
/// pieces do not have, where there are such ids, with opposite signs.
pub proof fn law_inner_false_ids(
    cells: Seq<Axial>,
    links: Seq<[Option<usize>; 6]>,
    rows: Seq<[i32; 6]>,
    plan: DecoyPlan,
    c: int,
    dir: int,
)
    requires
        links_cells(cells, links),
        decoy_rows(links, rows, plan),
        0 <= c < links.len(),
        0 <= dir < 6,
        links[c]@[dir] is Some,
        c < links[c]@[dir]->0,
    ensures
        rows[links[c]@[dir]->0 as int]@[opposite(dir)] == -rows[c]@[dir],
        plan.total_alphabet > plan.true_alphabet ==> plan.true_alphabet < rows[c]@[dir] <= plan.total_alphabet,
        plan.total_alphabet <= plan.true_alphabet ==> 1 <= rows[c]@[dir] && (rows[c]@[dir] <= plan.true_alphabet
            || rows[c]@[dir] == 1),
{
}

/// The number of the first `n` sides, six to a piece, that have a value.
pub open spec fn valued(pieces: Seq<Piece>, n: int) -> int
    decreases n,
{
    if n <= 0 {
        0
    } else {
        valued(pieces, n - 1) + (if pieces[(n - 1) / 6].edges@[(n - 1) % 6] != 0 {
            1int
        } else {
            0
        })
    }
}

/// How often the ids up to `top` occur on the first `n` sides.
pub open spec fn occurrences(pieces: Seq<Piece>, top: int, n: int) -> int
    decreases top,
{
    if top <= 0 {
        0
    } else {
        occurrences(pieces, top - 1, n) + id_count(pieces, top, n)
    }
}

proof fn lemma_occurrences(pieces: Seq<Piece>, top: int, n: int)
    requires
        0 <= top,
        0 < n,
    ensures
        occurrences(pieces, top, n) == occurrences(pieces, top, n - 1) + (if 1 <= magnitude(
            pieces[(n - 1) / 6].edges@[(n - 1) % 6],
        ) <= top {
            1int
        } else {
            0
        }),
    decreases top,
{
    if top > 0 {
        lemma_occurrences(pieces, top - 1, n);
    }
}

/// The counts of the ids of an alphabet add up to the number of sides that
/// have a value, if no other ids occur.
pub proof fn law_counts_add_up(pieces: Seq<Piece>, alphabet: int, n: int)
    requires
        0 <= alphabet,
        ids_within(pieces, alphabet),
        0 <= n <= 6 * pieces.len(),
    ensures
        occurrences(pieces, alphabet, n) == valued(pieces, n),
    decreases n,
{
    if n > 0 {
        law_counts_add_up(pieces, alphabet, n - 1);
        lemma_occurrences(pieces, alphabet, n);
        let p = (n - 1) / 6;
        let d = (n - 1) % 6;
        assert(-alphabet <= pieces[p].edges@[d] <= alphabet);
    } else {
        lemma_no_occurrences(pieces, alphabet);
    }
}

proof fn lemma_no_occurrences(pieces: Seq<Piece>, top: int)
    ensures
        occurrences(pieces, top, 0) == 0,
    decreases top,
{
    if top > 0 {
        lemma_no_occurrences(pieces, top - 1);
    }
}

} // verus!
