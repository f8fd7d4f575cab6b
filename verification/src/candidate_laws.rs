//! What the numbers, the shapes and the choice of a trial puzzle come to.

use crate::candidate::{
    best_of, candidate_on, core_size, drawn_shapes, pieces_drawn, settled_shapes, Candidate, Cuts,
};
use crate::clusters::is_cluster;
use crate::config::Config;
use crate::decoy_laws::law_attach_ids;
use crate::edges::{spans, tree_spread, Edge};
use crate::grid::{hexagon_size, steps_to, Axial};
use crate::shapes::{drawn_table, key_of, law_table_distinct, symmetric, Shape};
use crate::trial::Piece;
use crate::trial_decoys::{
    attach_ids, law_false_pieces_rolled, lemma_size_sum_grows, outsides_rolled, rolled, size_sum, DecoyPlan,
};
use crate::trial_ids::{law_outside_values_drawn, outside_values};
use crate::trial_pieces::Numbering;
use rand::rngs::StdRng;
use vstd::prelude::*;

verus! {

/// The core is the largest one that is not larger than asked for and leaves
/// as many ids as needed; if the alphabet has not so many, there is no core.
pub proof fn law_core_size(core: int, alphabet: int, needed: int, other: int)
    requires
        0 <= core,
        0 <= alphabet,
        0 <= needed,
        0 <= other <= core,
        other <= alphabet - needed,
    ensures
        other <= core_size(core, alphabet, needed) <= core,
        core_size(core, alphabet, needed) + needed <= alphabet,
{
}

/// There is no core where the alphabet has fewer ids than needed.
pub proof fn law_no_core(core: int, alphabet: int, needed: int)
    requires
        0 <= core,
        0 <= alphabet < needed,
    ensures
        core_size(core, alphabet, needed) == 0,
{
}

/// A puzzle of a trial has the numbers that the settings call for: one true
/// piece to a cell, as many false pieces as asked for or a fifth of the cells
/// but at least one, and ids for a spanning tree besides the core, where the
/// alphabet has them.
pub proof fn law_candidate_numbers(
    cfg: Config,
    cuts: Cuts,
    seed: u64,
    trial_seed: u64,
    index: usize,
    cand: Candidate,
    cells: Seq<Axial>,
    links: Seq<[Option<usize>; 6]>,
    true_pieces: Seq<Piece>,
    false_pieces: Seq<Piece>,
)
    requires
        cfg.can_run(),
        candidate_on(cfg, cuts, seed, trial_seed, index, cand, cells, links, true_pieces, false_pieces),
    ensures
        ({
            let n = hexagon_size(cfg.side_len - 1);
            let stats = cand.stats;
            &&& cand.true_piece_count == n
            &&& true_pieces.len() == n
            &&& cfg.false_count is Some ==> cand.false_piece_count == cfg.false_count->0
            &&& cfg.false_count is None && n < 5 ==> cand.false_piece_count == 1
            &&& cfg.false_count is None && n >= 5 ==> 5 * cand.false_piece_count <= n < 5 * (cand.false_piece_count
                + 1)
            &&& 0 <= stats.core_alphabet <= cfg.core_alphabet
            &&& stats.true_alphabet <= cfg.true_alphabet
            &&& stats.true_alphabet <= cfg.total_alphabet
            &&& stats.true_alphabet == cfg.true_alphabet || stats.true_alphabet == cfg.total_alphabet
            &&& n - 1 <= stats.true_alphabet ==> stats.core_alphabet + (n - 1) <= stats.true_alphabet
            &&& stats.core_alphabet == cfg.core_alphabet || stats.core_alphabet + (n - 1) == stats.true_alphabet || (
            n - 1 > stats.true_alphabet && stats.core_alphabet == 0)
        }),
{
    let r = cfg.side_len - 1;
    assert(3 * r * (r + 1) >= 0) by (nonlinear_arith)
        requires
            r >= 0,
    ;
}

/// The puzzle of a run is the first of those with the greatest score: every
/// attempt before it scores less.
pub proof fn law_best_first(attempts: Seq<Option<Candidate>>) -> (k: int)
    requires
        best_of(attempts) is Some,
    ensures
        0 <= k < attempts.len(),
        attempts[k] == best_of(attempts),
        forall|i: int|
            0 <= i < k && (#[trigger] attempts[i]) is Some ==> attempts[i]->0.quarters() < attempts[k]->0.quarters(),
        forall|i: int|
            k < i < attempts.len() && (#[trigger] attempts[i]) is Some ==> attempts[i]->0.quarters()
                <= attempts[k]->0.quarters(),
    decreases attempts.len(),
{
    let front = attempts.drop_last();
    if best_of(front) is Some {
        let k = law_best_first(front);
        assert forall|i: int| 0 <= i < front.len() implies front[i] == #[trigger] attempts[i] by {
        }
        assert(attempts[attempts.len() - 1] == attempts.last());
        if best_of(attempts) == best_of(front) && !(attempts.last() is Some && best_of(front)->0.quarters()
            < attempts.last()->0.quarters()) {
            k
        } else {
            attempts.len() - 1
        }
    } else {
        lemma_none_before(front);
        assert forall|i: int| 0 <= i < front.len() implies (#[trigger] attempts[i]) is None by {
            assert(front[i] == attempts[i]);
        }
        assert(attempts[attempts.len() - 1] == attempts.last());
        attempts.len() - 1
    }
}

proof fn lemma_none_before(attempts: Seq<Option<Candidate>>)
    requires
        best_of(attempts) is None,
    ensures
        forall|i: int| 0 <= i < attempts.len() ==> (#[trigger] attempts[i]) is None,
    decreases attempts.len(),
{
    if attempts.len() > 0 {
        let front = attempts.drop_last();
        lemma_none_before(front);
        assert forall|i: int| 0 <= i < attempts.len() implies (#[trigger] attempts[i]) is None by {
            if i < front.len() {
                assert(front[i] == attempts[i]);
            }
        }
    }
}

/// The shapes of a trial that is to kill the reflection tell truly whether
/// one of them differs from its mirror image. Those of another trial differ
/// in their keys, and nothing is told of their mirror images.
pub proof fn law_shapes_told(shapes: Seq<Shape>, total: int, collisions: int, kill: bool, killed: bool)
    requires
        drawn_shapes(shapes, total, collisions, kill, killed),
    ensures
        shapes.len() == total + 1,
        kill ==> killed == exists|i: int| 1 <= i < shapes.len() && !symmetric(#[trigger] shapes[i]),
        !kill ==> !killed,
        !kill ==> forall|i: int, j: int|
            1 <= i < j < shapes.len() ==> key_of(#[trigger] shapes[i]) != key_of(#[trigger] shapes[j]),
{
    let (draws, table) = choose|draws: Seq<Shape>, table: Seq<Shape>| #[trigger]
        drawn_table(draws, table, total, collisions) && settled_shapes(table, shapes, kill, killed);
    law_table_distinct(draws);
}

/// Each cluster of false pieces of a trial is laid out so that the edges that
/// face no other cell of it were rolled: with a roll below the flat share they
/// are flat, with one below the attaching share they have an id of the true
/// pieces, and otherwise an id above the true ones, if there are any.
pub proof fn law_candidate_outsides(
    before: StdRng,
    mid: StdRng,
    after: StdRng,
    cfg: Config,
    cuts: Cuts,
    seed: u64,
    trial_seed: u64,
    index: usize,
    cand: Candidate,
    cells: Seq<Axial>,
    links: Seq<[Option<usize>; 6]>,
    true_pieces: Seq<Piece>,
    false_pieces: Seq<Piece>,
    k: int,
)
    requires
        cfg.can_run(),
        candidate_on(cfg, cuts, seed, trial_seed, index, cand, cells, links, true_pieces, false_pieces),
        pieces_drawn(before, mid, after, cfg, cuts, cand, links, true_pieces, false_pieces),
        0 <= k < cand.stats.false_cluster_sizes@.len(),
    ensures
        exists|cluster: Seq<Axial>|
            is_cluster(cluster) && cluster.len() == cand.stats.false_cluster_sizes@[k] && #[trigger] outsides_rolled(
                DecoyPlan {
                    true_alphabet: cand.stats.true_alphabet as int,
                    total_alphabet: cfg.total_alphabet as int,
                    attach: attach_ids(true_pieces),
                    flat_cut: cuts.flat,
                    attach_cut: cuts.attach,
                },
                cand.pieces@,
                true_pieces.len() + size_sum(cand.stats.false_cluster_sizes@, k),
                cluster,
            ),
{
    let plan = DecoyPlan {
        true_alphabet: cand.stats.true_alphabet as int,
        total_alphabet: cfg.total_alphabet as int,
        attach: attach_ids(true_pieces),
        flat_cut: cuts.flat,
        attach_cut: cuts.attach,
    };
    let sizes = cand.stats.false_cluster_sizes@;
    assert forall|i: int, dir: int| 0 <= i < true_pieces.len() && 0 <= dir < 6 implies (#[trigger] true_pieces[i].edges@[dir])
        > i32::MIN by {
        assert(cand.pieces@[i] == true_pieces[i]);
        assert(-cand.stats.total_alphabet <= cand.pieces@[i].edges@[dir]);
    }
    assert forall|i: int| 0 <= i < plan.attach.len() implies #[trigger] plan.attach[i] > 0 by {
        assert(plan.attach.contains(plan.attach[i]));
        law_attach_ids(true_pieces, plan.attach[i]);
    }
    law_false_pieces_rolled(
        mid,
        after,
        cand.false_piece_count as int,
        cfg.false_clusters is Some,
        plan,
        false_pieces,
        sizes,
        k,
    );
    let cluster = choose|cluster: Seq<Axial>|
        is_cluster(cluster) && cluster.len() == sizes[k] && #[trigger] outsides_rolled(
            plan,
            false_pieces,
            size_sum(sizes, k),
            cluster,
        );
    lemma_size_sum_grows(sizes, k + 1, sizes.len() as int);
    lemma_size_sum_grows(sizes, k, k);
    let n = true_pieces.len() as int;
    assert forall|c: int, dir: int|
        0 <= c < cluster.len() && 0 <= dir < 6 && (forall|j: int|
            0 <= j < cluster.len() ==> !steps_to(cluster[c], dir, #[trigger] cluster[j])) implies #[trigger] rolled(
        plan,
        cand.pieces@[n + size_sum(sizes, k) + c].edges@[dir],
    ) by {
        assert(cand.pieces@[n + (size_sum(sizes, k) + c)] == false_pieces[size_sum(sizes, k) + c]);
        assert(rolled(plan, false_pieces[size_sum(sizes, k) + c].edges@[dir]));
    }
    assert(outsides_rolled(plan, cand.pieces@, n + size_sum(sizes, k), cluster));
}

/// With a core, the edges of a trial puzzle that lie outside the spanning tree
/// drawn for it show numbers drawn from 1 to the core, or ids above it where
/// the roll is below the anchored share.
pub proof fn law_candidate_core_ids(
    before: StdRng,
    mid: StdRng,
    after: StdRng,
    cfg: Config,
    cuts: Cuts,
    seed: u64,
    trial_seed: u64,
    index: usize,
    cand: Candidate,
    cells: Seq<Axial>,
    links: Seq<[Option<usize>; 6]>,
    true_pieces: Seq<Piece>,
    false_pieces: Seq<Piece>,
)
    requires
        cfg.can_run(),
        candidate_on(cfg, cuts, seed, trial_seed, index, cand, cells, links, true_pieces, false_pieces),
        pieces_drawn(before, mid, after, cfg, cuts, cand, links, true_pieces, false_pieces),
        1 <= cand.stats.core_alphabet,
    ensures
        exists|end: StdRng, tree: Seq<Edge>| #[trigger]
            tree_spread(before, end, links, tree) && spans(links, tree) && outside_values(
                links,
                Numbering {
                    core: cand.stats.core_alphabet as int,
                    alphabet: cand.stats.true_alphabet as int,
                    cut: cuts.anchor,
                },
                true_pieces,
                tree,
            ),
{
    let plan = Numbering {
        core: cand.stats.core_alphabet as int,
        alphabet: cand.stats.true_alphabet as int,
        cut: cuts.anchor,
    };
    law_candidate_numbers(cfg, cuts, seed, trial_seed, index, cand, cells, links, true_pieces, false_pieces);
    let r = cfg.side_len - 1;
    assert(3 * r * (r + 1) >= 0) by (nonlinear_arith)
        requires
            r >= 0,
    ;
    law_outside_values_drawn(before, mid, links, plan, true_pieces, cand.stats.unique_ids_used as int);
}

} // verus!
