//! Axial coordinates, the hexagonal board and rotations of edge values.

use std::collections::HashMap;
use vstd::prelude::*;

verus! {

/// A cell in axial coordinates.
#[derive(Clone, Copy, Debug, PartialEq, Eq, Structural, Hash)]
pub struct Axial {
    pub q: i32,
    pub r: i32,
}

/// The steps to the six neighbours of a cell, in direction order.
pub const DIRS: [(i32, i32); 6] = [(1, 0), (1, -1), (0, -1), (-1, 0), (-1, 1), (0, 1)];

impl Axial {
    pub fn new(q: i32, r: i32) -> (cell: Self)
        ensures
            cell == (Axial { q, r }),
    {
        Self { q, r }
    }

    /// The coordinate-wise sum of two cells.
    pub fn add(&self, other: Axial) -> (sum: Self)
        requires
            i32::MIN <= self.q + other.q <= i32::MAX,
            i32::MIN <= self.r + other.r <= i32::MAX,
        ensures
            sum.q == self.q + other.q,
            sum.r == self.r + other.r,
    {
        Self { q: self.q + other.q, r: self.r + other.r }
    }
}

/// The direction that faces `dir` across a shared edge.
pub open spec fn opposite(dir: int) -> int {
    (dir + 3) % 6
}

pub fn opposite_dir(dir: usize) -> (opp: usize)
    requires
        dir <= usize::MAX - 3,
    ensures
        opp == opposite(dir as int),
{
    (dir + 3) % 6
}

/// The magnitude of an edge value.
pub open spec fn magnitude(value: i32) -> int {
    if value < 0 {
        -value
    } else {
        value as int
    }
}

/// The edge values `edges` as seen after `rot` sixth-turns: position `i`
/// shows the value that stood at position `i + rot`.
pub open spec fn rotated(edges: Seq<i32>, rot: int) -> Seq<i32> {
    Seq::new(6, |i: int| edges[(i + rot) % 6])
}

pub fn rotate_edges(edges: &[i32; 6], rot: usize) -> (out: [i32; 6])
    requires
        rot <= usize::MAX - 5,
    ensures
        out@ == rotated(edges@, rot as int),
{
    let mut out: [i32; 6] = [0; 6];
    for i in 0..6
        invariant
            rot <= usize::MAX - 5,
            forall|j: int| 0 <= j < i ==> out@[j] == edges@[(j + rot) % 6],
    {
        out[i] = edges[(i + rot) % 6];
    }
    assert(out@ =~= rotated(edges@, rot as int));
    out
}


/// The neighbour table of a set of cells: for each cell, the index of its
/// neighbour in each direction.
pub type Links = Vec<[Option<usize>; 6]>;

/// Whether `(q, r)` lies within `radius` steps of the origin.
pub open spec fn in_hexagon(q: int, r: int, radius: int) -> bool {
    -radius <= q <= radius && -radius <= r <= radius && -radius <= q + r <= radius
}

/// Column-major order of cells: by `q`, then by `r`.
pub open spec fn before(a: Axial, b: Axial) -> bool {
    a.q < b.q || (a.q == b.q && a.r < b.r)
}

/// Whether `cells` holds the cell `(q, r)`.
pub open spec fn has_cell(cells: Seq<Axial>, q: int, r: int) -> bool {
    exists|i: int| 0 <= i < cells.len() && (#[trigger] cells[i]).q == q && cells[i].r == r
}

/// Whether `cells` lists the hexagon of that radius, each cell once, in
/// column-major order.
pub open spec fn lists_hexagon(cells: Seq<Axial>, radius: int) -> bool {
    &&& forall|i: int|
        0 <= i < cells.len() ==> in_hexagon((#[trigger] cells[i]).q as int, cells[i].r as int, radius)
    &&& forall|i: int, j: int| 0 <= i < j < cells.len() ==> before(#[trigger] cells[i], #[trigger] cells[j])
    &&& forall|q: int, r: int| in_hexagon(q, r, radius) ==> #[trigger] has_cell(cells, q, r)
}

/// The number of cells of a hexagon.
pub open spec fn hexagon_size(radius: int) -> int {
    if radius < 0 {
        0
    } else {
        3 * radius * (radius + 1) + 1
    }
}

/// Whether `b` is one step from `a` in direction `dir`.
pub open spec fn steps_to(a: Axial, dir: int, b: Axial) -> bool {
    b.q == a.q + DIRS[dir].0 && b.r == a.r + DIRS[dir].1
}

/// Whether `link` names the cell one step from `cells[c]` in direction `dir`:
/// the last one listed, or none if no such cell is listed.
pub open spec fn link_of(cells: Seq<Axial>, c: int, dir: int, link: Option<usize>) -> bool {
    match link {
        Some(j) => {
            &&& j < cells.len()
            &&& steps_to(cells[c], dir, cells[j as int])
            &&& forall|k: int| j < k < cells.len() ==> !steps_to(cells[c], dir, #[trigger] cells[k])
        },
        None => forall|k: int| 0 <= k < cells.len() ==> !steps_to(cells[c], dir, #[trigger] cells[k]),
    }
}

/// Whether `links` is the neighbour table of `cells`.
pub open spec fn links_cells(cells: Seq<Axial>, links: Seq<[Option<usize>; 6]>) -> bool {
    &&& links.len() == cells.len()
    &&& forall|c: int, dir: int|
        0 <= c < cells.len() && 0 <= dir < 6 ==> link_of(cells, c, dir, #[trigger] links[c]@[dir])
}

/// Whether every link of the table names a cell of the table.
pub open spec fn links_in_range(links: Seq<[Option<usize>; 6]>) -> bool {
    forall|c: int, dir: int|
        0 <= c < links.len() && 0 <= dir < 6 && (#[trigger] links[c]@[dir]) is Some
            ==> links[c]@[dir]->0 < links.len()
}

/// Whether the link from `c` in direction `dir`, if there is one, leads to
/// another cell whose opposite link leads back.
pub open spec fn leads_back(links: Seq<[Option<usize>; 6]>, c: int, dir: int) -> bool {
    links[c]@[dir] is Some ==> {
        &&& links[c]@[dir]->0 != c
        &&& links[links[c]@[dir]->0 as int]@[opposite(dir)] == Some(c as usize)
    }
}

/// Whether every link leads back.
pub open spec fn links_mutual(links: Seq<[Option<usize>; 6]>) -> bool {
    forall|c: int, dir: int| 0 <= c < links.len() && 0 <= dir < 6 ==> #[trigger] leads_back(links, c, dir)
}

/// Whether the links never lead out of `set`.
pub open spec fn closed_under_links(links: Seq<[Option<usize>; 6]>, set: Set<int>) -> bool {
    forall|c: int, dir: int|
        0 <= c < links.len() && 0 <= dir < 6 && set.contains(c) && (#[trigger] links[c]@[dir]) is Some
            ==> set.contains(links[c]@[dir]->0 as int)
}

/// Whether every cell can be reached from cell 0.
pub open spec fn connected(links: Seq<[Option<usize>; 6]>) -> bool {
    forall|set: Set<int>, c: int|
        #![trigger closed_under_links(links, set), set.contains(c)]
        closed_under_links(links, set) && set.contains(0) && 0 <= c < links.len() ==> set.contains(c)
}

/// The integer under which a cell is indexed.
pub open spec fn packed(cell: Axial) -> int {
    (cell.q + 0x8000_0000) * 0x1_0000_0000 + (cell.r + 0x8000_0000)
}

proof fn lemma_packed_injective(a: Axial, b: Axial)
    requires
        packed(a) == packed(b),
    ensures
        a == b,
{
}

pub(crate) fn pack(cell: &Axial) -> (key: u64)
    ensures
        key == packed(*cell),
{
    ((cell.q as i64 + 0x8000_0000) as u64) * 0x1_0000_0000 + ((cell.r as i64 + 0x8000_0000) as u64)
}

/// Whether `index` leads from each packed cell to the last position at which
/// `cells` lists it.
pub open spec fn indexes(cells: Seq<Axial>, index: Map<u64, usize>) -> bool {
    &&& forall|i: int| 0 <= i < cells.len() ==> index.contains_key(packed(#[trigger] cells[i]) as u64)
    &&& forall|k: u64| #[trigger] index.contains_key(k) ==> {
        &&& index[k] < cells.len()
        &&& packed(cells[index[k] as int]) == k
        &&& forall|j: int| index[k] < j < cells.len() ==> packed(#[trigger] cells[j]) != k
    }
}

fn index_cells(cells: &Vec<Axial>) -> (index: HashMap<u64, usize>)
    ensures
        indexes(cells@, index@),
{
    broadcast use vstd::std_specs::hash::group_hash_axioms;
    let mut index: HashMap<u64, usize> = HashMap::new();
    for i in 0..cells.len()
        invariant
            indexes(cells@.take(i as int), index@),
    {
        let ghost past = cells@.take(i as int);
        let ghost now = cells@.take(i + 1);
        assert(now =~= past.push(cells@[i as int]));
        index.insert(pack(&cells[i]), i);
        assert forall|j: int| 0 <= j < now.len() implies index@.contains_key(packed(#[trigger] now[j]) as u64) by {
            if j < i {
                assert(now[j] == past[j]);
            }
        }
        assert forall|k: u64| #[trigger] index@.contains_key(k) implies {
            &&& index@[k] < now.len()
            &&& packed(now[index@[k] as int]) == k
            &&& forall|j: int| index@[k] < j < now.len() ==> packed(#[trigger] now[j]) != k
        } by {
            if k != packed(cells@[i as int]) {
                assert(forall|j: int| 0 <= j < i ==> past[j] == #[trigger] now[j]);
            }
        }
    }
    assert(cells@.take(cells@.len() as int) =~= cells@);
    index
}

/// The number of cells in the columns `-radius .. q` of a hexagon.
spec fn columns_size(radius: int, q: int) -> int
    decreases q + radius,
{
    if q <= -radius {
        0
    } else {
        columns_size(radius, q - 1) + column_end(radius, q - 1) - column_start(radius, q - 1) + 1
    }
}

spec fn column_start(radius: int, q: int) -> int {
    if q < 0 {
        -radius - q
    } else {
        -radius
    }
}

spec fn column_end(radius: int, q: int) -> int {
    if q < 0 {
        radius
    } else {
        radius - q
    }
}

proof fn lemma_columns_size(radius: int, q: int)
    requires
        0 <= radius,
        -radius <= q <= radius + 1,
    ensures
        q <= 0 ==> 2 * columns_size(radius, q) == (q + radius) * (3 * radius + 1 + q),
        q >= 0 ==> 2 * columns_size(radius, q) == radius * (3 * radius + 1) + q * (4 * radius + 3 - q),
    decreases q + radius,
{
    if q > -radius {
        lemma_columns_size(radius, q - 1);
        if q <= 0 {
            assert((q + radius) * (3 * radius + 1 + q) == (q - 1 + radius) * (3 * radius + q) + 2 * (2 * radius
                + q)) by (nonlinear_arith);
        } else {
            assert(q * (4 * radius + 3 - q) == (q - 1) * (4 * radius + 4 - q) + 2 * (2 * radius + 2 - q))
                by (nonlinear_arith);
            if q == 1 {
                assert((q - 1 + radius) * (3 * radius + 1 + (q - 1)) == radius * (3 * radius + 1));
            }
        }
    }
}

/// The cells of a hexagonal board with `side_len` cells on a side.
pub fn build_hex_cells(side_len: i32) -> (cells: Vec<Axial>)
    requires
        i32::MIN < side_len <= 0x4000_0000,
    ensures
        lists_hexagon(cells@, side_len - 1),
        cells.len() == hexagon_size(side_len - 1),
{
    let radius: i32 = side_len - 1;
    let mut cells: Vec<Axial> = Vec::new();
    let mut q: i32 = if radius < 0 { 1 } else { -radius };
    while q <= radius
        invariant
            radius < 0x4000_0000,
            radius < 0 ==> q > radius && cells.len() == 0,
            radius >= 0 ==> -radius <= q <= radius + 1 && cells.len() == columns_size(radius as int, q as int),
            forall|i: int| #![trigger cells@[i]]
                0 <= i < cells.len() ==> cells@[i].q < q && in_hexagon(
                    cells@[i].q as int,
                    cells@[i].r as int,
                    radius as int,
                ),
            forall|i: int, j: int| 0 <= i < j < cells.len() ==> before(#[trigger] cells@[i], #[trigger] cells@[j]),
            forall|a: int, b: int|
                in_hexagon(a, b, radius as int) && a < q ==> #[trigger] has_cell(cells@, a, b),
        decreases radius + 1 - q,
    {
        let ghost start = column_start(radius as int, q as int);
        let ghost end = column_end(radius as int, q as int);
        let ghost base = cells.len() as int;
        let mut r: i32 = -radius;
        while r <= radius
            invariant
                0 <= radius < 0x4000_0000,
                -radius <= q <= radius,
                -radius <= r <= radius + 1,
                start == column_start(radius as int, q as int),
                end == column_end(radius as int, q as int),
                cells.len() == base + (if r <= start {
                    0
                } else if r > end {
                    end - start + 1
                } else {
                    r - start
                }),
                forall|i: int| #![trigger cells@[i]]
                    0 <= i < cells.len() ==> (cells@[i].q < q || (cells@[i].q == q && cells@[i].r < r))
                        && in_hexagon(cells@[i].q as int, cells@[i].r as int, radius as int),
                forall|i: int, j: int|
                    0 <= i < j < cells.len() ==> before(#[trigger] cells@[i], #[trigger] cells@[j]),
                forall|a: int, b: int|
                    in_hexagon(a, b, radius as int) && (a < q || (a == q && b < r)) ==> #[trigger] has_cell(
                        cells@,
                        a,
                        b,
                    ),
            decreases radius + 1 - r,
        {
            let ghost past = cells@;
            let s: i32 = -(q + r);
            if s >= -radius && s <= radius {
                cells.push(Axial::new(q, r));
                assert(cells@[past.len() as int].q == q && cells@[past.len() as int].r == r);
                assert(has_cell(cells@, q as int, r as int));
                assert forall|a: int, b: int|
                    in_hexagon(a, b, radius as int) && (a < q || (a == q && b < r)) implies #[trigger] has_cell(
                    cells@,
                    a,
                    b,
                ) by {
                    assert(has_cell(past, a, b));
                    let i = choose|i: int| 0 <= i < past.len() && (#[trigger] past[i]).q == a && past[i].r == b;
                    assert(cells@[i] == past[i]);
                }
            }
            r = r + 1;
        }
        q = q + 1;
    }
    proof {
        if radius >= 0 {
            lemma_columns_size(radius as int, radius + 1);
            assert((radius as int) * (3 * radius + 1) + (radius + 1) * (4 * radius + 3 - (radius + 1)) == 2 * (3
                * radius * (radius + 1) + 1)) by (nonlinear_arith);
        }
    }
    cells
}

/// The neighbour table of `cells`.
pub fn build_neighbors(cells: &Vec<Axial>) -> (links: Links)
    requires
        forall|i: int| #![trigger cells@[i]]
            0 <= i < cells.len() ==> i32::MIN < cells@[i].q < i32::MAX && i32::MIN < cells@[i].r < i32::MAX,
    ensures
        links_cells(cells@, links@),
{
    broadcast use vstd::std_specs::hash::group_hash_axioms;
    let index: HashMap<u64, usize> = index_cells(cells);
    let mut links: Links = Vec::new();
    for c in 0..cells.len()
        invariant
            indexes(cells@, index@),
            forall|i: int| #![trigger cells@[i]]
                0 <= i < cells.len() ==> i32::MIN < cells@[i].q < i32::MAX && i32::MIN < cells@[i].r < i32::MAX,
            links.len() == c,
            forall|i: int, dir: int|
                0 <= i < c && 0 <= dir < 6 ==> link_of(cells@, i, dir, #[trigger] links@[i]@[dir]),
    {
        let mut row: [Option<usize>; 6] = [None; 6];
        let cell: Axial = cells[c];
        for dir in 0..6
            invariant
                0 <= c < cells.len(),
                cell == cells@[c as int],
                i32::MIN < cell.q < i32::MAX && i32::MIN < cell.r < i32::MAX,
                indexes(cells@, index@),
                forall|d: int| 0 <= d < dir ==> link_of(cells@, c as int, d, #[trigger] row@[d]),
                forall|d: int| dir <= d < 6 ==> #[trigger] row@[d] is None,
        {
            let (dq, dr) = DIRS[dir];
            let next: Axial = cell.add(Axial::new(dq, dr));
            let key: u64 = pack(&next);
            assert forall|k: int| 0 <= k < cells.len() && steps_to(cell, dir as int, #[trigger] cells@[k]) implies
                packed(cells@[k]) == key by {
            }
            if let Some(j) = index.get(&key) {
                proof {
                    lemma_packed_injective(cells@[*j as int], next);
                }
                row[dir] = Some(*j);
            } else {
                assert(link_of(cells@, c as int, dir as int, row@[dir as int]));
            }
        }
        links.push(row);
    }
    links
}

/// A hexagonal board: its cells, their neighbours, and which edges of each
/// cell lie on the rim.
#[derive(Clone, Debug)]
pub struct Board {
    pub cells: Vec<Axial>,
    pub neighbors: Links,
    pub boundary: Vec<[bool; 6]>,
}

impl Board {
    /// The tables fit together: neighbours see each other, and the rim is
    /// where there is no neighbour.
    pub open spec fn wf(&self) -> bool {
        &&& self.neighbors.len() == self.cells.len()
        &&& self.boundary.len() == self.cells.len()
        &&& links_in_range(self.neighbors@)
        &&& links_mutual(self.neighbors@)
        &&& forall|c: int, dir: int|
            0 <= c < self.cells.len() && 0 <= dir < 6 ==> #[trigger] self.boundary@[c]@[dir]
                == (self.neighbors@[c]@[dir] is None)
    }

    /// The hexagonal board with `side_len` cells on a side.
    pub fn new(side_len: i32) -> (board: Self)
        requires
            i32::MIN < side_len <= 0x4000_0000,
        ensures
            board.wf(),
            lists_hexagon(board.cells@, side_len - 1),
            board.cells.len() == hexagon_size(side_len - 1),
            links_cells(board.cells@, board.neighbors@),
    {
        let cells: Vec<Axial> = build_hex_cells(side_len);
        let neighbors: Links = build_neighbors(&cells);
        let mut boundary: Vec<[bool; 6]> = Vec::new();
        for c in 0..cells.len()
            invariant
                neighbors.len() == cells.len(),
                boundary.len() == c,
                forall|i: int, dir: int|
                    0 <= i < c && 0 <= dir < 6 ==> #[trigger] boundary@[i]@[dir] == (neighbors@[i]@[dir] is None),
        {
            let mut row: [bool; 6] = [false; 6];
            for dir in 0..6
                invariant
                    0 <= c < neighbors.len(),
                    forall|d: int| 0 <= d < dir ==> #[trigger] row@[d] == (neighbors@[c as int]@[d] is None),
            {
                row[dir] = neighbors[c][dir].is_none();
            }
            boundary.push(row);
        }
        proof {
            lemma_hexagon_links_mutual(cells@, neighbors@, side_len - 1);
        }
        Self { cells, neighbors, boundary }
    }

    pub fn cell_count(&self) -> (count: usize)
        ensures
            count == self.cells.len(),
    {
        self.cells.len()
    }
}

/// In the neighbour table of different cells, neighbours see each other.
pub proof fn lemma_links_mutual(cells: Seq<Axial>, links: Seq<[Option<usize>; 6]>)
    requires
        cells.no_duplicates(),
        links_cells(cells, links),
        cells.len() <= usize::MAX,
    ensures
        links_in_range(links),
        links_mutual(links),
{
    assert forall|c: int, dir: int|
        0 <= c < links.len() && 0 <= dir < 6 && (#[trigger] links[c]@[dir]) is Some implies links[c]@[dir]->0
        < links.len() by {
        assert(link_of(cells, c, dir, links[c]@[dir]));
    }
    assert forall|c: int, dir: int| 0 <= c < links.len() && 0 <= dir < 6 implies #[trigger] leads_back(
        links,
        c,
        dir,
    ) by {
        if links[c]@[dir] is Some {
            assert(link_of(cells, c, dir, links[c]@[dir]));
            let j = links[c]@[dir]->0 as int;
            let back = links[j]@[opposite(dir)];
            assert(link_of(cells, j, opposite(dir), back));
            assert(steps_to(cells[j], opposite(dir), cells[c]));
            let k = back->0 as int;
            assert(cells[k] == cells[c]);
        }
    }
}

/// In the neighbour table of a listed hexagon, neighbours see each other.
pub proof fn lemma_hexagon_links_mutual(cells: Seq<Axial>, links: Seq<[Option<usize>; 6]>, radius: int)
    requires
        lists_hexagon(cells, radius),
        links_cells(cells, links),
        cells.len() <= usize::MAX,
    ensures
        links_in_range(links),
        links_mutual(links),
{
    assert forall|i: int, j: int| 0 <= i < cells.len() && 0 <= j < cells.len() && i != j implies cells[i] != cells[j] by {
        if i < j {
            assert(before(cells[i], cells[j]));
        } else {
            assert(before(cells[j], cells[i]));
        }
    }
    lemma_links_mutual(cells, links);
}

/// A hexagon is connected: from its first cell every cell can be reached.
pub proof fn law_hexagon_connected(cells: Seq<Axial>, links: Seq<[Option<usize>; 6]>, radius: int)
    requires
        lists_hexagon(cells, radius),
        links_cells(cells, links),
    ensures
        connected(links),
{
    assert forall|set: Set<int>, c: int|
        #![trigger closed_under_links(links, set), set.contains(c)]
        closed_under_links(links, set) && set.contains(0) && 0 <= c < links.len() implies set.contains(c) by {
        lemma_hexagon_reaches(cells, links, radius, set, c);
    }
}

proof fn lemma_hexagon_reaches(cells: Seq<Axial>, links: Seq<[Option<usize>; 6]>, radius: int, set: Set<int>, c: int)
    requires
        lists_hexagon(cells, radius),
        links_cells(cells, links),
        closed_under_links(links, set),
        set.contains(0),
        0 <= c < cells.len(),
    ensures
        set.contains(c),
    decreases c,
{
    if c > 0 {
        let q = cells[c].q as int;
        let r = cells[c].r as int;
        assert(before(cells[0], cells[c]));
        assert(in_hexagon(cells[0].q as int, cells[0].r as int, radius));
        let (pq, pr, dir): (int, int, int) = if q > -radius {
            if q + r > -radius {
                (q - 1, r, 0)
            } else {
                (q - 1, r + 1, 1)
            }
        } else {
            (q, r - 1, 5)
        };
        assert(in_hexagon(pq, pr, radius));
        assert(has_cell(cells, pq, pr));
        let p = choose|i: int| 0 <= i < cells.len() && (#[trigger] cells[i]).q == pq && cells[i].r == pr;
        if p > c {
            assert(before(cells[c], cells[p]));
        }
        lemma_hexagon_reaches(cells, links, radius, set, p);
        assert(link_of(cells, p, dir, links[p]@[dir]));
        assert(steps_to(cells[p], dir, cells[c]));
        let k = links[p]@[dir]->0 as int;
        if k < c {
            assert(before(cells[k], cells[c]));
        } else if c < k {
            assert(before(cells[c], cells[k]));
        }
    }
}

/// Turns add up.
pub proof fn law_rotations_add(edges: Seq<i32>, first: int, second: int)
    requires
        edges.len() == 6,
    ensures
        rotated(rotated(edges, first), second) == rotated(edges, first + second),
{
    assert forall|i: int| 0 <= i < 6 implies rotated(rotated(edges, first), second)[i] == rotated(
        edges,
        first + second,
    )[i] by {
        assert(((i + second) % 6 + first) % 6 == (i + (first + second)) % 6);
    }
    assert(rotated(rotated(edges, first), second) =~= rotated(edges, first + second));
}

/// Turning on by what is missing to a full turn undoes a turn.
pub proof fn law_rotation_undone(edges: Seq<i32>, rot: int)
    requires
        edges.len() == 6,
        0 <= rot < 6,
    ensures
        rotated(rotated(edges, rot), (6 - rot) % 6) == edges,
{
    assert forall|i: int| 0 <= i < 6 implies rotated(rotated(edges, rot), (6 - rot) % 6)[i] == edges[i] by {
        assert(((i + (6 - rot) % 6) % 6 + rot) % 6 == i);
    }
    assert(rotated(rotated(edges, rot), (6 - rot) % 6) =~= edges);
}

/// The opposite of the opposite direction is the direction, and a step there
/// takes a step back.
pub proof fn law_opposite(dir: int)
    requires
        0 <= dir < 6,
    ensures
        opposite(opposite(dir)) == dir,
        DIRS[opposite(dir)].0 == -DIRS[dir].0,
        DIRS[opposite(dir)].1 == -DIRS[dir].1,
{
}

/// Whether no cell has the same neighbour in two directions.
pub open spec fn links_differ(links: Seq<[Option<usize>; 6]>) -> bool {
    forall|c: int, d: int, e: int|
        0 <= c < links.len() && 0 <= d < 6 && 0 <= e < 6 && d != e && links[c]@[d] is Some ==> #[trigger] links[c]@[d]
            != #[trigger] links[c]@[e]
}

/// In a neighbour table no cell has the same neighbour in two directions.
pub proof fn law_links_differ(cells: Seq<Axial>, links: Seq<[Option<usize>; 6]>)
    requires
        links_cells(cells, links),
    ensures
        links_differ(links),
{
    assert forall|c: int, d: int, e: int|
        0 <= c < links.len() && 0 <= d < 6 && 0 <= e < 6 && d != e && links[c]@[d] is Some implies #[trigger] links[c]@[d]
        != #[trigger] links[c]@[e] by {
        assert(link_of(cells, c, d, links[c]@[d]));
        assert(link_of(cells, c, e, links[c]@[e]));
    }
}

/// The sides of the cells that face no neighbour, each as a cell and a
/// direction.
pub open spec fn rim_sides(links: Seq<[Option<usize>; 6]>) -> Set<(int, int)> {
    Set::new(|side: (int, int)| 0 <= side.0 < links.len() && 0 <= side.1 < 6 && links[side.0]@[side.1] is None)
}

spec fn lesser(a: int, b: int) -> int {
    if a < b {
        a
    } else {
        b
    }
}

/// The last cell in direction `dir` of row `k` of the rows that run in that
/// direction.
spec fn row_end(radius: int, dir: int, k: int) -> (int, int) {
    if dir == 0 {
        (lesser(radius, radius - k), k)
    } else if dir == 1 {
        (lesser(radius, radius + k), k - lesser(radius, radius + k))
    } else if dir == 2 {
        (k, -lesser(radius, radius + k))
    } else if dir == 3 {
        (-lesser(radius, radius + k), k)
    } else if dir == 4 {
        (-lesser(radius, radius - k), k + lesser(radius, radius - k))
    } else {
        (k, lesser(radius, radius - k))
    }
}

/// The row of a cell among those that run in direction `dir`.
spec fn row_of(dir: int, cell: Axial) -> int {
    if dir == 0 || dir == 3 {
        cell.r as int
    } else if dir == 2 || dir == 5 {
        cell.q as int
    } else {
        cell.q + cell.r
    }
}

/// A cell of a hexagon has no neighbour in a direction exactly if it ends its
/// row.
proof fn lemma_row_end(cells: Seq<Axial>, links: Seq<[Option<usize>; 6]>, radius: int, c: int, dir: int)
    requires
        0 <= radius < 0x4000_0000,
        lists_hexagon(cells, radius),
        links_cells(cells, links),
        0 <= c < cells.len(),
        0 <= dir < 6,
    ensures
        links[c]@[dir] is None <==> (cells[c].q as int, cells[c].r as int) == row_end(
            radius,
            dir,
            row_of(dir, cells[c]),
        ),
        -radius <= row_of(dir, cells[c]) <= radius,
{
    let cell = cells[c];
    let link = links[c]@[dir];
    assert(link_of(cells, c, dir, link));
    assert(in_hexagon(cell.q as int, cell.r as int, radius));
    let q = cell.q + DIRS[dir].0;
    let r = cell.r + DIRS[dir].1;
    assert(in_hexagon(q, r, radius) <==> link is Some) by {
        if in_hexagon(q, r, radius) {
            assert(has_cell(cells, q, r));
            let i = choose|i: int| 0 <= i < cells.len() && (#[trigger] cells[i]).q == q && cells[i].r == r;
            assert(steps_to(cell, dir, cells[i]));
        }
        if link is Some {
            assert(in_hexagon(cells[link->0 as int].q as int, cells[link->0 as int].r as int, radius));
        }
    }
}

/// The rim of a hexagon has six times as many sides as there are rows in one
/// direction.
pub proof fn law_rim(cells: Seq<Axial>, links: Seq<[Option<usize>; 6]>, side_len: int)
    requires
        1 <= side_len <= 0x4000_0000,
        lists_hexagon(cells, side_len - 1),
        links_cells(cells, links),
    ensures
        rim_sides(links).finite(),
        rim_sides(links).len() == 6 * (2 * side_len - 1),
{
    let radius = side_len - 1;
    let rows = 2 * side_len - 1;
    let numbers = vstd::set_lib::set_int_range(0, 6 * rows);
    vstd::set_lib::lemma_int_range(0, 6 * rows);
    let at = |q: int, r: int| choose|i: int| 0 <= i < cells.len() && (#[trigger] cells[i]).q == q && cells[i].r == r;
    let side = |n: int| {
        let end = row_end(radius, n % 6, n / 6 - radius);
        (at(end.0, end.1), n % 6)
    };
    assert forall|n: int| #[trigger] numbers.contains(n) implies {
        let s = side(n);
        &&& rim_sides(links).contains(s)
        &&& row_of(s.1, cells[s.0]) == n / 6 - radius
    } by {
        let dir = n % 6;
        let k = n / 6 - radius;
        assert(-radius <= k <= radius);
        let end = row_end(radius, dir, k);
        assert(in_hexagon(end.0, end.1, radius));
        assert(has_cell(cells, end.0, end.1));
        let c = at(end.0, end.1);
        assert(0 <= c < cells.len() && cells[c].q == end.0 && cells[c].r == end.1);
        lemma_row_end(cells, links, radius, c, dir);
    }
    assert(vstd::relations::injective_on(side, numbers)) by {
        assert forall|m: int, n: int| numbers.contains(m) && numbers.contains(n) && #[trigger] side(m) == #[trigger] side(
            n,
        ) implies m == n by {
            assert(m / 6 == n / 6 && m % 6 == n % 6);
        }
    }
    assert(numbers.map(side) =~= rim_sides(links)) by {
        assert forall|s: (int, int)| rim_sides(links).contains(s) implies numbers.map(side).contains(s) by {
            let (c, dir) = s;
            lemma_row_end(cells, links, radius, c, dir);
            let k = row_of(dir, cells[c]);
            let n = 6 * (k + radius) + dir;
            assert(n / 6 == k + radius && n % 6 == dir);
            assert(numbers.contains(n));
            let end = row_end(radius, dir, k);
            let i = at(end.0, end.1);
            assert(cells[c].q == end.0 && cells[c].r == end.1);
            assert(0 <= i < cells.len() && cells[i].q == end.0 && cells[i].r == end.1);
            if i < c {
                assert(before(cells[i], cells[c]));
            } else if c < i {
                assert(before(cells[c], cells[i]));
            }
            assert(side(n) == s);
        }
    }
    vstd::set_lib::lemma_map_size(numbers, rim_sides(links), side);
}

} // verus!
