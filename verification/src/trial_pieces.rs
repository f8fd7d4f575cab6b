//! The true pieces of a trial puzzle: every inner edge is given an id, which
//! its lesser cell shows and its greater cell shows negated.

use crate::edges::{
    enumerate_edges, is_forward, joins, lemma_edge_back, lemma_edges_apart, lemma_listed_apart, lists_edges,
    pairs_tree, spanning_tree_edges, spans, tree_joins, tree_spread, Edge,
};
use crate::grid::{links_in_range, links_mutual, opposite, opposite_dir, Links};
use crate::rng::{gave_i32, gave_word, next_i32, next_word};
use crate::trial::{Piece, PieceKind};
use rand::rngs::StdRng;
use vstd::prelude::*;

verus! {

/// The number of equally likely rolls. A ratio is held as the number of
/// rolls that fall under it.
pub const ROLLS: u64 = 0x20_0000_0000_0000;

/// A roll: one of the equally likely values below `ROLLS`, from the upper
/// bits of a random word.
pub fn roll_of(word: u64) -> (roll: u64)
    ensures
        roll == word / 2048,
        roll < ROLLS,
{
    word / 2048
}

/// Where the id of an edge comes from.
#[derive(Clone, Copy, Debug, PartialEq, Eq, Structural)]
pub enum IdSource {
    /// The next id that has not been used.
    Unique,
    /// The greatest core id, as there is no unused id left for a tree edge.
    Spare,
    /// A random core id.
    Core,
    /// A random id.
    Any,
}

/// Where the id of an edge comes from: tree edges and anchored edges take
/// unused ids while there are any, and other edges take core ids.
pub open spec fn source_of(is_tree: bool, anchored: bool, core: int, alphabet: int, next: int) -> IdSource {
    if is_tree {
        if next <= alphabet {
            IdSource::Unique
        } else {
            IdSource::Spare
        }
    } else if anchored && next <= alphabet {
        IdSource::Unique
    } else if core > 0 {
        IdSource::Core
    } else if next <= alphabet {
        IdSource::Unique
    } else {
        IdSource::Any
    }
}

pub fn id_source(is_tree: bool, anchored: bool, core: i32, alphabet: i32, next: i32) -> (source: IdSource)
    ensures
        source == source_of(is_tree, anchored, core as int, alphabet as int, next as int),
{
    if is_tree {
        if next <= alphabet {
            IdSource::Unique
        } else {
            IdSource::Spare
        }
    } else if anchored && next <= alphabet {
        IdSource::Unique
    } else if core > 0 {
        IdSource::Core
    } else if next <= alphabet {
        IdSource::Unique
    } else {
        IdSource::Any
    }
}

/// What was drawn for an edge: a roll, and an id. Each counts only where it
/// is asked for.
pub struct EdgeChoice {
    pub roll: u64,
    pub id: i32,
}

/// Whether a roll anchors an edge.
pub open spec fn anchored(choice: EdgeChoice, cut: u64) -> bool {
    cut > 0 && choice.roll < cut
}

pub open spec fn clamp_core(core: int, alphabet: int) -> int {
    let least = if core > 1 {
        core
    } else {
        1
    };
    if least < alphabet {
        least
    } else {
        alphabet
    }
}

/// The id that a source gives.
pub open spec fn id_from(source: IdSource, choice: EdgeChoice, core: int, alphabet: int, next: int) -> int {
    match source {
        IdSource::Unique => next,
        IdSource::Spare => clamp_core(core, alphabet),
        _ => choice.id as int,
    }
}

/// Whether the draws of a choice lie where they can.
pub open spec fn choice_possible(source: IdSource, choice: EdgeChoice, core: int, alphabet: int) -> bool {
    &&& choice.roll < ROLLS
    &&& source == IdSource::Core ==> 1 <= choice.id <= core
    &&& source == IdSource::Any ==> 1 <= choice.id <= alphabet
}

/// The alphabets that edges are numbered from, and the share of anchored
/// edges.
pub struct Numbering {
    pub core: int,
    pub alphabet: int,
    pub cut: u64,
}

/// The next unused id after the first `k` edges were given ids.
pub open spec fn next_unused(plan: Numbering, is_tree: Seq<bool>, choices: Seq<EdgeChoice>, k: int) -> int
    decreases k,
{
    if k <= 0 {
        plan.core + 1
    } else {
        let next = next_unused(plan, is_tree, choices, k - 1);
        if edge_source(plan, is_tree, choices, k - 1, next) == IdSource::Unique {
            next + 1
        } else {
            next
        }
    }
}

/// The source for edge `k` when `next` is the next unused id.
pub open spec fn edge_source(plan: Numbering, is_tree: Seq<bool>, choices: Seq<EdgeChoice>, k: int, next: int) -> IdSource {
    source_of(is_tree[k], anchored(choices[k], plan.cut), plan.core, plan.alphabet, next)
}

/// Whether edge `k` is given its id by the rules.
pub open spec fn numbered_at(plan: Numbering, is_tree: Seq<bool>, choices: Seq<EdgeChoice>, ids: Seq<i32>, k: int) -> bool {
    let next = next_unused(plan, is_tree, choices, k);
    let source = edge_source(plan, is_tree, choices, k, next);
    &&& choice_possible(source, choices[k], plan.core, plan.alphabet)
    &&& ids[k] == id_from(source, choices[k], plan.core, plan.alphabet, next)
}

/// Whether the ids are given by the rules.
pub open spec fn numbered(plan: Numbering, is_tree: Seq<bool>, choices: Seq<EdgeChoice>, ids: Seq<i32>) -> bool {
    &&& is_tree.len() == ids.len()
    &&& choices.len() == ids.len()
    &&& forall|k: int| 0 <= k < ids.len() ==> #[trigger] numbered_at(plan, is_tree, choices, ids, k)
}

/// Whether `is_tree` marks the edges that belong to a spanning tree.
pub open spec fn marks_tree(links: Seq<[Option<usize>; 6]>, edges: Seq<Edge>, tree: Seq<Edge>, is_tree: Seq<bool>) -> bool {
    &&& spans(links, tree)
    &&& is_tree.len() == edges.len()
    &&& forall|k: int|
        0 <= k < edges.len() ==> #[trigger] is_tree[k] == tree_joins(tree, edges[k].0 as int, edges[k].1 as int)
}

/// Whether the value at a place of a row is there for edge `edge` with `id`.
pub open spec fn shows_edge(rows: Seq<[i32; 6]>, edge: Edge, id: i32) -> bool {
    &&& rows[edge.0 as int]@[edge.2 as int] == id
    &&& rows[edge.1 as int]@[opposite(edge.2 as int)] == -id
}

/// Whether the rows show the ids of the first `k` edges, and zero at the rim.
pub open spec fn shows_edges(
    links: Seq<[Option<usize>; 6]>,
    edges: Seq<Edge>,
    ids: Seq<i32>,
    k: int,
    rows: Seq<[i32; 6]>,
) -> bool {
    &&& rows.len() == links.len()
    &&& forall|j: int| 0 <= j < k ==> shows_edge(rows, #[trigger] edges[j], ids[j])
    &&& forall|c: int, dir: int|
        0 <= c < links.len() && 0 <= dir < 6 && links[c]@[dir] is None ==> (#[trigger] rows[c]@[dir]) == 0
}

pub(crate) proof fn lemma_show_edge(
    links: Seq<[Option<usize>; 6]>,
    edges: Seq<Edge>,
    ids: Seq<i32>,
    k: int,
    before: Seq<[i32; 6]>,
    after: Seq<[i32; 6]>,
)
    requires
        links.len() <= usize::MAX,
        links_in_range(links),
        links_mutual(links),
        lists_edges(links, edges),
        0 <= k < edges.len(),
        k < ids.len(),
        shows_edges(links, edges, ids, k, before),
        after.len() == before.len(),
        shows_edge(after, edges[k], ids[k]),
        forall|c: int, dir: int|
            0 <= c < links.len() && 0 <= dir < 6 && !(c == edges[k].0 && dir == edges[k].2) && !(c == edges[k].1
                && dir == opposite(edges[k].2 as int)) ==> (#[trigger] after[c]@[dir]) == before[c]@[dir],
    ensures
        shows_edges(links, edges, ids, k + 1, after),
{
    let e = edges[k];
    assert(joins(links, e) && is_forward(e));
    lemma_edge_back(links, e);
    assert forall|j: int| 0 <= j < k + 1 implies shows_edge(after, #[trigger] edges[j], ids[j]) by {
        if j < k {
            let f = edges[j];
            assert(joins(links, f) && is_forward(f));
            lemma_listed_apart(links, edges, j, k);
            lemma_edges_apart(links, f, e);
            assert(shows_edge(before, f, ids[j]));
            assert(after[f.0 as int]@[f.2 as int] == before[f.0 as int]@[f.2 as int]);
            assert(after[f.1 as int]@[opposite(f.2 as int)] == before[f.1 as int]@[opposite(f.2 as int)]);
        }
    }
    assert forall|c: int, dir: int|
        0 <= c < links.len() && 0 <= dir < 6 && links[c]@[dir] is None implies (#[trigger] after[c]@[dir]) == 0 by {
        assert(after[c]@[dir] == before[c]@[dir]);
    }
}

/// Whether `pieces` are the true pieces with these edge values.
pub open spec fn true_pieces_of(rows: Seq<[i32; 6]>, pieces: Seq<Piece>) -> bool {
    &&& pieces.len() == rows.len()
    &&& forall|i: int|
        0 <= i < pieces.len() ==> (#[trigger] pieces[i]).id == i && pieces[i].kind == PieceKind::True
            && pieces[i].cluster_id is None && pieces[i].edges == rows[i]
}

/// Whether `pieces` are true pieces whose edges were numbered by the rules,
/// with `used` unused ids taken.
pub open spec fn numbered_pieces(
    links: Seq<[Option<usize>; 6]>,
    plan: Numbering,
    pieces: Seq<Piece>,
    used: int,
    edges: Seq<Edge>,
    tree: Seq<Edge>,
    is_tree: Seq<bool>,
    choices: Seq<EdgeChoice>,
    ids: Seq<i32>,
    rows: Seq<[i32; 6]>,
) -> bool {
    &&& lists_edges(links, edges)
    &&& marks_tree(links, edges, tree, is_tree)
    &&& ids.len() == edges.len()
    &&& numbered(plan, is_tree, choices, ids)
    &&& shows_edges(links, edges, ids, edges.len() as int, rows)
    &&& true_pieces_of(rows, pieces)
    &&& used == next_unused(plan, is_tree, choices, edges.len() as int) - (plan.core + 1)
}

/// The numbers that an edge can be given lie in the alphabet.
pub(crate) proof fn lemma_next_unused(plan: Numbering, is_tree: Seq<bool>, choices: Seq<EdgeChoice>, k: int)
    requires
        0 <= plan.core <= plan.alphabet,
    ensures
        plan.core + 1 <= next_unused(plan, is_tree, choices, k) <= plan.alphabet + 1,
        k >= 0 ==> next_unused(plan, is_tree, choices, k) <= plan.core + 1 + k,
    decreases k,
{
    if k > 0 {
        lemma_next_unused(plan, is_tree, choices, k - 1);
    }
}

/// What was chosen for later edges does not matter.
proof fn lemma_next_unused_prefix(
    plan: Numbering,
    is_tree: Seq<bool>,
    choices: Seq<EdgeChoice>,
    more_tree: Seq<bool>,
    more: Seq<EdgeChoice>,
    k: int,
)
    requires
        k <= is_tree.len() <= more_tree.len(),
        k <= choices.len() <= more.len(),
        forall|i: int| 0 <= i < is_tree.len() ==> is_tree[i] == #[trigger] more_tree[i],
        forall|i: int| 0 <= i < choices.len() ==> choices[i] == #[trigger] more[i],
    ensures
        next_unused(plan, is_tree, choices, k) == next_unused(plan, more_tree, more, k),
    decreases k,
{
    if k > 0 {
        lemma_next_unused_prefix(plan, is_tree, choices, more_tree, more, k - 1);
        assert(choices[k - 1] == more[k - 1]);
        assert(is_tree[k - 1] == more_tree[k - 1]);
    }
}

/// Whether a roll is made of the upper bits of the next word of generator
/// `before`, and the generator is `after` then.
pub open spec fn roll_drawn(before: StdRng, after: StdRng, roll: u64) -> bool {
    exists|word: u64| #[trigger] gave_word(before, after, word) && 2048 * roll <= word < 2048 * (roll + 1)
}

/// Whether what is drawn for an edge is what generator `before` gives, and
/// the generator is `after` then: a roll for an edge outside the tree, if
/// edges can be anchored, and an id where the source asks for one.
pub open spec fn choice_drawn(
    before: StdRng,
    after: StdRng,
    plan: Numbering,
    is_tree: bool,
    source: IdSource,
    choice: EdgeChoice,
) -> bool {
    exists|mid: StdRng|
        (if !is_tree && plan.cut > 0 {
            roll_drawn(before, mid, choice.roll)
        } else {
            mid == before
        }) && #[trigger] id_drawn(mid, after, plan, source, choice.id)
}

/// Whether an id is what generator `before` gives, where the source asks for
/// one, and the generator is `after` then.
pub open spec fn id_drawn(before: StdRng, after: StdRng, plan: Numbering, source: IdSource, id: i32) -> bool {
    match source {
        IdSource::Core => gave_i32(before, after, 1, plan.core as i32, id),
        IdSource::Any => gave_i32(before, after, 1, plan.alphabet as i32, id),
        _ => after == before,
    }
}

/// Whether what is drawn for the first `k` edges is what generator `before`
/// gives in turn, and the generator is `after` then.
pub open spec fn choices_drawn(
    before: StdRng,
    after: StdRng,
    plan: Numbering,
    is_tree: Seq<bool>,
    choices: Seq<EdgeChoice>,
    k: int,
) -> bool
    decreases k,
{
    if k <= 0 {
        before == after
    } else {
        exists|mid: StdRng, last: int| #[trigger]
            edge_drawn(mid, after, plan, is_tree, choices, last) && last == k - 1 && choices_drawn(
                before,
                mid,
                plan,
                is_tree,
                choices,
                k - 1,
            )
    }
}

/// The same for edge `k` alone.
pub open spec fn edge_drawn(
    before: StdRng,
    after: StdRng,
    plan: Numbering,
    is_tree: Seq<bool>,
    choices: Seq<EdgeChoice>,
    k: int,
) -> bool {
    choice_drawn(
        before,
        after,
        plan,
        is_tree[k],
        edge_source(plan, is_tree, choices, k, next_unused(plan, is_tree, choices, k)),
        choices[k],
    )
}

/// Whether `pieces` are true pieces that are made with what generator
/// `before` gives, and the generator is `after` then: a spanning tree, and
/// the choices for the edges.
pub open spec fn true_pieces_drawn(
    before: StdRng,
    after: StdRng,
    links: Seq<[Option<usize>; 6]>,
    plan: Numbering,
    pieces: Seq<Piece>,
    used: int,
) -> bool {
    exists|
        mid: StdRng,
        edges: Seq<Edge>,
        tree: Seq<Edge>,
        is_tree: Seq<bool>,
        choices: Seq<EdgeChoice>,
        ids: Seq<i32>,
        rows: Seq<[i32; 6]>,
    |
        #![trigger tree_spread(before, mid, links, tree), numbered_pieces(links, plan, pieces, used, edges, tree, is_tree, choices, ids, rows)]
        tree_spread(before, mid, links, tree) && numbered_pieces(
            links,
            plan,
            pieces,
            used,
            edges,
            tree,
            is_tree,
            choices,
            ids,
            rows,
        ) && choices_drawn(mid, after, plan, is_tree, choices, edges.len() as int)
}

proof fn lemma_choices_prefix(
    before: StdRng,
    after: StdRng,
    plan: Numbering,
    is_tree: Seq<bool>,
    choices: Seq<EdgeChoice>,
    more_tree: Seq<bool>,
    more: Seq<EdgeChoice>,
    k: int,
)
    requires
        0 <= k <= is_tree.len(),
        is_tree.len() == choices.len(),
        is_tree.len() <= more_tree.len(),
        choices.len() <= more.len(),
        forall|i: int| 0 <= i < is_tree.len() ==> is_tree[i] == #[trigger] more_tree[i],
        forall|i: int| 0 <= i < choices.len() ==> choices[i] == #[trigger] more[i],
        choices_drawn(before, after, plan, is_tree, choices, k),
    ensures
        choices_drawn(before, after, plan, more_tree, more, k),
    decreases k,
{
    if k > 0 {
        let (mid, last) = choose|mid: StdRng, last: int| #[trigger]
            edge_drawn(mid, after, plan, is_tree, choices, last) && last == k - 1 && choices_drawn(
                before,
                mid,
                plan,
                is_tree,
                choices,
                k - 1,
            );
        lemma_choices_prefix(before, mid, plan, is_tree, choices, more_tree, more, k - 1);
        lemma_next_unused_prefix(plan, is_tree, choices, more_tree, more, k - 1);
        assert(is_tree[k - 1] == more_tree[k - 1]);
        assert(choices[k - 1] == more[k - 1]);
        assert(edge_drawn(mid, after, plan, more_tree, more, last));
    }
}

/// Draws what an edge needs for its id, and gives the id with the source it
/// came from.
fn number_edge(rng: &mut StdRng, is_tree: bool, core: i32, alphabet: i32, cut: u64, next: i32) -> (numbered: (
    i32,
    IdSource,
    Ghost<EdgeChoice>,
))
    requires
        0 <= core <= alphabet,
        1 <= alphabet < i32::MAX,
        core + 1 <= next <= alphabet + 1,
    ensures
        ({
            let (id, source, choice) = numbered;
            &&& source == source_of(is_tree, anchored(choice@, cut), core as int, alphabet as int, next as int)
            &&& choice_possible(source, choice@, core as int, alphabet as int)
            &&& id == id_from(source, choice@, core as int, alphabet as int, next as int)
            &&& 1 <= id <= alphabet
            &&& choice_drawn(
                *old(rng),
                *final(rng),
                Numbering { core: core as int, alphabet: alphabet as int, cut },
                is_tree,
                source,
                choice@,
            )
        }),
{
    let ghost plan = Numbering { core: core as int, alphabet: alphabet as int, cut };
    let mut roll: u64 = 0;
    let mut is_anchor: bool = false;
    if !is_tree && cut > 0 {
        let word: u64 = next_word(rng);
        roll = roll_of(word);
        is_anchor = roll < cut;
        assert(roll_drawn(*old(rng), *rng, roll)) by {
            assert(gave_word(*old(rng), *rng, word));
        }
    }
    let ghost mid = *rng;
    let source: IdSource = id_source(is_tree, is_anchor, core, alphabet, next);
    let id: i32 = match source {
        IdSource::Unique => next,
        IdSource::Spare => {
            let least: i32 = if core > 1 { core } else { 1 };
            if least < alphabet { least } else { alphabet }
        },
        IdSource::Core => next_i32(rng, 1, core),
        IdSource::Any => next_i32(rng, 1, alphabet),
    };
    let ghost choice = EdgeChoice { roll, id };
    assert(id_drawn(mid, *rng, plan, source, choice.id));
    assert(choice_drawn(*old(rng), *rng, plan, is_tree, source, choice));
    (id, source, Ghost(EdgeChoice { roll, id }))
}

pub(crate) fn holds_partner(partners: &Vec<Vec<usize>>, low: usize, high: usize) -> (held: bool)
    requires
        low < partners.len(),
    ensures
        held == partners@[low as int]@.contains(high),
{
    let list: &Vec<usize> = &partners[low];
    for i in 0..list.len()
        invariant
            low < partners.len(),
            list == partners@[low as int],
            forall|j: int| 0 <= j < i ==> #[trigger] list@[j] != high,
    {
        if list[i] == high {
            return true;
        }
    }
    false
}

/// The true pieces of a board, the number of unused ids taken, and how often
/// each id occurs on the pieces.
pub fn build_true_pieces(
    n: usize,
    neighbors: &Links,
    rng: &mut StdRng,
    core_alphabet: i32,
    true_alphabet: i32,
    anchor_cut: u64,
) -> (built: (Vec<Piece>, usize, Vec<usize>))
    requires
        n == neighbors.len(),
        n > 0,
        6 * n <= usize::MAX,
        links_in_range(neighbors@),
        links_mutual(neighbors@),
        0 <= core_alphabet <= true_alphabet,
        1 <= true_alphabet < i32::MAX,
    ensures
        ({
            let (pieces, used, counts) = built;
            let plan = Numbering { core: core_alphabet as int, alphabet: true_alphabet as int, cut: anchor_cut };
            &&& made_true_pieces(neighbors@, plan, pieces@, used as int)
            &&& true_pieces_drawn(*old(rng), *final(rng), neighbors@, plan, pieces@, used as int)
            &&& ids_within(pieces@, true_alphabet as int)
            &&& counts_ids(pieces@, true_alphabet as int, counts@)
        }),
{
    let ghost plan = Numbering { core: core_alphabet as int, alphabet: true_alphabet as int, cut: anchor_cut };
    let partners: Vec<Vec<usize>> = spanning_tree_edges(neighbors, rng);
    let ghost start = *rng;
    let ghost tree = choose|tree: Seq<Edge>| #[trigger]
        spans(neighbors@, tree) && pairs_tree(partners@, tree) && tree_spread(*old(rng), start, neighbors@, tree);
    let edges: Vec<Edge> = enumerate_edges(neighbors);
    let mut rows: Vec<[i32; 6]> = blank_rows(n);
    let mut next_unique_id: i32 = core_alphabet + 1;
    let ghost mut is_tree: Seq<bool> = Seq::empty();
    let ghost mut choices: Seq<EdgeChoice> = Seq::empty();
    let ghost mut ids: Seq<i32> = Seq::empty();
    for k in 0..edges.len()
        invariant
            n == neighbors.len(),
            n == partners.len(),
            links_in_range(neighbors@),
            links_mutual(neighbors@),
            0 <= core_alphabet <= true_alphabet,
            1 <= true_alphabet < i32::MAX,
            plan == (Numbering { core: core_alphabet as int, alphabet: true_alphabet as int, cut: anchor_cut }),
            lists_edges(neighbors@, edges@),
            pairs_tree(partners@, tree),
            is_tree.len() == k,
            choices.len() == k,
            ids.len() == k,
            forall|j: int|
                0 <= j < k ==> #[trigger] is_tree[j] == tree_joins(tree, edges@[j].0 as int, edges@[j].1 as int),
            numbered(plan, is_tree, choices, ids),
            choices_drawn(start, *rng, plan, is_tree, choices, k as int),
            next_unique_id == next_unused(plan, is_tree, choices, k as int),
            core_alphabet + 1 <= next_unique_id <= true_alphabet + 1,
            shows_edges(neighbors@, edges@, ids, k as int, rows@),
            rows_within(rows@, true_alphabet as int),
    {
        let (a, b, dir) = edges[k];
        proof {
            assert(joins(neighbors@, edges@[k as int]) && is_forward(edges@[k as int]));
            lemma_edge_back(neighbors@, edges@[k as int]);
        }
        let joined: bool = holds_partner(&partners, a, b);
        assert(partners@[a as int]@.contains(b as int as usize) == tree_joins(tree, a as int, b as int));
        let ghost mid = *rng;
        let (id, source, Ghost(choice)) = number_edge(
            rng,
            joined,
            core_alphabet,
            true_alphabet,
            anchor_cut,
            next_unique_id,
        );
        let ghost before = rows@;
        let ghost past_tree = is_tree;
        let ghost past = choices;
        let ghost past_ids = ids;
        proof {
            is_tree = is_tree.push(joined);
            choices = choices.push(choice);
            ids = ids.push(id);
            lemma_next_unused_prefix(plan, past_tree, past, is_tree, choices, k as int);
            lemma_numbered_prefix(plan, past_tree, past, past_ids, is_tree, choices, ids);
            assert(numbered_at(plan, is_tree, choices, ids, k as int));
            lemma_choices_prefix(start, mid, plan, past_tree, past, is_tree, choices, k as int);
            assert(edge_drawn(mid, *rng, plan, is_tree, choices, k as int));
        }
        if source == IdSource::Unique {
            next_unique_id = next_unique_id + 1;
        }
        rows[a][dir] = id;
        let opp: usize = opposite_dir(dir);
        rows[b][opp] = -id;
        proof {
            assert(shows_edges(neighbors@, edges@, ids, k as int, before));
            lemma_show_edge(neighbors@, edges@, ids, k as int, before, rows@);
            assert(rows_within(rows@, true_alphabet as int));
        }
    }
    let used: usize = (next_unique_id - (core_alphabet + 1)) as usize;
    let mut pieces: Vec<Piece> = Vec::with_capacity(n);
    for idx in 0..rows.len()
        invariant
            pieces.len() == idx,
            forall|i: int|
                0 <= i < idx ==> (#[trigger] pieces@[i]).id == i && pieces@[i].kind == PieceKind::True
                    && pieces@[i].cluster_id is None && pieces@[i].edges == rows@[i],
    {
        pieces.push(Piece { id: idx, kind: PieceKind::True, cluster_id: None, edges: rows[idx] });
    }
    proof {
        assert(numbered_pieces(neighbors@, plan, pieces@, used as int, edges@, tree, is_tree, choices, ids, rows@));
        assert(tree_spread(*old(rng), start, neighbors@, tree));
        assert forall|i: int, dir: int| 0 <= i < pieces.len() && 0 <= dir < 6 implies -true_alphabet
            <= #[trigger] pieces@[i].edges@[dir] <= true_alphabet by {
            assert(pieces@[i].edges@[dir] == rows@[i]@[dir]);
        }
    }
    let counts: Vec<usize> = count_ids(&pieces, true_alphabet);
    (pieces, used, counts)
}

/// Whether `pieces` are true pieces whose edges were numbered by the rules
/// with some spanning tree and some draws.
pub open spec fn made_true_pieces(links: Seq<[Option<usize>; 6]>, plan: Numbering, pieces: Seq<Piece>, used: int) -> bool {
    exists|
        edges: Seq<Edge>,
        tree: Seq<Edge>,
        is_tree: Seq<bool>,
        choices: Seq<EdgeChoice>,
        ids: Seq<i32>,
        rows: Seq<[i32; 6]>,
    | #[trigger]
        numbered_pieces(links, plan, pieces, used, edges, tree, is_tree, choices, ids, rows)
}

/// Whether every edge value lies within the alphabet.
pub open spec fn ids_within(pieces: Seq<Piece>, alphabet: int) -> bool {
    forall|i: int, dir: int|
        0 <= i < pieces.len() && 0 <= dir < 6 ==> -alphabet <= #[trigger] pieces[i].edges@[dir] <= alphabet
}

spec fn rows_within(rows: Seq<[i32; 6]>, alphabet: int) -> bool {
    forall|i: int, dir: int| 0 <= i < rows.len() && 0 <= dir < 6 ==> -alphabet <= #[trigger] rows[i]@[dir] <= alphabet
}

proof fn lemma_numbered_prefix(
    plan: Numbering,
    is_tree: Seq<bool>,
    choices: Seq<EdgeChoice>,
    ids: Seq<i32>,
    more_tree: Seq<bool>,
    more: Seq<EdgeChoice>,
    more_ids: Seq<i32>,
)
    requires
        numbered(plan, is_tree, choices, ids),
        is_tree.len() <= more_tree.len(),
        choices.len() <= more.len(),
        ids.len() <= more_ids.len(),
        forall|i: int| 0 <= i < is_tree.len() ==> is_tree[i] == #[trigger] more_tree[i],
        forall|i: int| 0 <= i < choices.len() ==> choices[i] == #[trigger] more[i],
        forall|i: int| 0 <= i < ids.len() ==> ids[i] == #[trigger] more_ids[i],
    ensures
        forall|k: int| 0 <= k < ids.len() ==> #[trigger] numbered_at(plan, more_tree, more, more_ids, k),
{
    assert forall|k: int| 0 <= k < ids.len() implies #[trigger] numbered_at(plan, more_tree, more, more_ids, k) by {
        assert(numbered_at(plan, is_tree, choices, ids, k));
        lemma_next_unused_prefix(plan, is_tree, choices, more_tree, more, k);
        assert(more[k] == choices[k] && more_tree[k] == is_tree[k] && more_ids[k] == ids[k]);
    }
}

/// Rows of zeros.
pub(crate) fn blank_rows(n: usize) -> (rows: Vec<[i32; 6]>)
    ensures
        rows.len() == n,
        forall|c: int, dir: int| 0 <= c < n && 0 <= dir < 6 ==> #[trigger] rows@[c]@[dir] == 0,
{
    let mut rows: Vec<[i32; 6]> = Vec::with_capacity(n);
    for _i in 0..n
        invariant
            rows.len() == _i,
            forall|c: int, dir: int| 0 <= c < _i && 0 <= dir < 6 ==> #[trigger] rows@[c]@[dir] == 0,
    {
        rows.push([0; 6]);
    }
    rows
}

/// How many of the first `n` edges, six to a piece, have the id `id`.
pub open spec fn id_count(pieces: Seq<Piece>, id: int, n: int) -> int
    decreases n,
{
    if n <= 0 {
        0
    } else {
        let value = pieces[(n - 1) / 6].edges@[(n - 1) % 6] as int;
        id_count(pieces, id, n - 1) + (if value != 0 && (value == id || value == -id) {
            1int
        } else {
            0
        })
    }
}

/// Whether `counts` tells for each id of the alphabet how often it occurs.
pub open spec fn counts_ids(pieces: Seq<Piece>, alphabet: int, counts: Seq<usize>) -> bool {
    &&& counts.len() == alphabet + 1
    &&& forall|id: int|
        0 <= id <= alphabet ==> #[trigger] counts[id] == id_count(pieces, id, 6 * pieces.len() as int)
}

proof fn lemma_id_count_bound(pieces: Seq<Piece>, id: int, n: int)
    ensures
        0 <= id_count(pieces, id, n),
        n >= 0 ==> id_count(pieces, id, n) <= n,
    decreases n,
{
    if n > 0 {
        lemma_id_count_bound(pieces, id, n - 1);
    }
}

/// How often each id of the alphabet occurs on the pieces.
pub fn count_ids(pieces: &Vec<Piece>, alphabet: i32) -> (counts: Vec<usize>)
    requires
        0 <= alphabet < i32::MAX,
        6 * pieces.len() <= usize::MAX,
        ids_within(pieces@, alphabet as int),
    ensures
        counts_ids(pieces@, alphabet as int, counts@),
{
    let mut counts: Vec<usize> = Vec::new();
    for _id in 0..(alphabet + 1) as usize
        invariant
            0 <= alphabet < i32::MAX,
            counts.len() == _id,
            forall|id: int| 0 <= id < _id ==> #[trigger] counts@[id] == 0,
    {
        counts.push(0);
    }
    for i in 0..pieces.len()
        invariant
            0 <= alphabet < i32::MAX,
            6 * pieces.len() <= usize::MAX,
            ids_within(pieces@, alphabet as int),
            counts.len() == alphabet + 1,
            forall|id: int| 0 <= id <= alphabet ==> #[trigger] counts@[id] == id_count(pieces@, id, 6 * i as int),
    {
        for dir in 0..6usize
            invariant
                i < pieces.len(),
                0 <= alphabet < i32::MAX,
                6 * pieces.len() <= usize::MAX,
                ids_within(pieces@, alphabet as int),
                counts.len() == alphabet + 1,
                forall|id: int| 0 <= id <= alphabet ==> #[trigger] counts@[id] == id_count(pieces@, id, 6 * i + dir),
        {
            let edge: i32 = pieces[i].edges[dir];
            assert(-alphabet <= pieces@[i as int].edges@[dir as int] <= alphabet);
            assert((6 * i + dir) / 6 == i && (6 * i + dir) % 6 == dir);
            if edge != 0 {
                let id: usize = if edge < 0 { (-edge) as usize } else { edge as usize };
                proof {
                    lemma_id_count_bound(pieces@, id as int, 6 * i + dir);
                }
                counts[id] = counts[id] + 1;
            }
        }
    }
    counts
}

/// An edge that took an unused id shares it with no earlier edge that took
/// an unused id or a core id.
pub proof fn law_unused_ids_differ(
    plan: Numbering,
    is_tree: Seq<bool>,
    choices: Seq<EdgeChoice>,
    ids: Seq<i32>,
    j: int,
    k: int,
)
    requires
        0 <= plan.core <= plan.alphabet,
        numbered(plan, is_tree, choices, ids),
        0 <= j < k < ids.len(),
        edge_source(plan, is_tree, choices, k, next_unused(plan, is_tree, choices, k)) == IdSource::Unique,
        ({
            let source = edge_source(plan, is_tree, choices, j, next_unused(plan, is_tree, choices, j));
            source == IdSource::Unique || source == IdSource::Core
        }),
    ensures
        ids[j] != ids[k],
{
    assert(numbered_at(plan, is_tree, choices, ids, j));
    assert(numbered_at(plan, is_tree, choices, ids, k));
    lemma_next_unused(plan, is_tree, choices, k);
    lemma_next_unused_grows(plan, is_tree, choices, j + 1, k);
}

pub(crate) proof fn lemma_next_unused_grows(plan: Numbering, is_tree: Seq<bool>, choices: Seq<EdgeChoice>, j: int, k: int)
    requires
        j <= k,
    ensures
        next_unused(plan, is_tree, choices, j) <= next_unused(plan, is_tree, choices, k),
    decreases k - j,
{
    if j < k {
        lemma_next_unused_grows(plan, is_tree, choices, j, k - 1);
    }
}

/// The edge values of true pieces lie within the alphabet.
pub proof fn law_true_ids_within(links: Seq<[Option<usize>; 6]>, plan: Numbering, pieces: Seq<Piece>, used: int)
    requires
        links.len() <= usize::MAX,
        links_in_range(links),
        links_mutual(links),
        0 <= plan.core <= plan.alphabet,
        1 <= plan.alphabet <= i32::MAX,
        made_true_pieces(links, plan, pieces, used),
    ensures
        ids_within(pieces, plan.alphabet),
        0 <= used <= plan.alphabet - plan.core,
{
    let (edges, tree, is_tree, choices, ids, rows) = choose|
        edges: Seq<Edge>,
        tree: Seq<Edge>,
        is_tree: Seq<bool>,
        choices: Seq<EdgeChoice>,
        ids: Seq<i32>,
        rows: Seq<[i32; 6]>,
    | #[trigger]
        numbered_pieces(links, plan, pieces, used, edges, tree, is_tree, choices, ids, rows);
    lemma_next_unused(plan, is_tree, choices, edges.len() as int);
    assert forall|k: int| 0 <= k < ids.len() implies 1 <= #[trigger] ids[k] <= plan.alphabet by {
        assert(numbered_at(plan, is_tree, choices, ids, k));
        lemma_next_unused(plan, is_tree, choices, k);
    }
    assert forall|i: int, dir: int| 0 <= i < pieces.len() && 0 <= dir < 6 implies -plan.alphabet
        <= #[trigger] pieces[i].edges@[dir] <= plan.alphabet by {
        assert(pieces[i].edges == rows[i]);
        match links[i]@[dir] {
            Some(nb) => {
                let here = (i as usize, nb, dir as usize);
                lemma_edge_back(links, here);
                let back = opposite(dir);
                let e = if i < nb {
                    here
                } else {
                    (nb, i as usize, back as usize)
                };
                assert(opposite(back) == dir);
                assert(joins(links, e) && is_forward(e));
                let k = choose|k: int| 0 <= k < edges.len() && edges[k] == e;
                assert(shows_edge(rows, edges[k], ids[k]));
                assert(1 <= ids[k] <= plan.alphabet);
            },
            None => {
                assert(rows[i]@[dir] == 0);
            },
        }
    }
}

} // verus!
