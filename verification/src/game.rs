//! The simulation engine: grid representation, per-cell neighbor topology,
//! and the generation-advance algorithm.

use vstd::prelude::*;

verus! {

/// True when `(x, y)` lies on the `size`-by-`size` grid.
pub open spec fn in_bounds(size: int, x: int, y: int) -> bool {
    0 <= x < size && 0 <= y < size
}

/// Row-major index of `(x, y)` on a grid of side `size`.
pub open spec fn rm_index(size: int, x: int, y: int) -> int {
    y * size + x
}

/// 1 when `(x, y)` is on the grid and alive in `cells`, 0 otherwise;
/// positions off the grid count as dead (the boundary is clipped,
/// there is no wraparound).
pub open spec fn alive_at(size: int, cells: Seq<bool>, x: int, y: int) -> int {
    if in_bounds(size, x, y) && cells[rm_index(size, x, y)] {
        1
    } else {
        0
    }
}

/// Number of live cells among the eight positions adjacent to `(x, y)`,
/// counting positions off the grid as dead.
pub open spec fn live_neighbors(size: int, cells: Seq<bool>, x: int, y: int) -> int {
    alive_at(size, cells, x - 1, y - 1) + alive_at(size, cells, x, y - 1) + alive_at(
        size,
        cells,
        x + 1,
        y - 1,
    ) + alive_at(size, cells, x - 1, y + 1) + alive_at(size, cells, x, y + 1) + alive_at(
        size,
        cells,
        x + 1,
        y + 1,
    ) + alive_at(size, cells, x - 1, y) + alive_at(size, cells, x + 1, y)
}

/// The neighbors of a cell in column `x` that lie in the adjacent row `yy`,
/// ordered left to right: columns `x - 1` through `x + 1`, clipped to the grid.
/// Only meaningful for `0 <= x < size` and an in-bounds row `yy`.
pub open spec fn row_band(size: int, x: int, yy: int) -> Seq<(usize, usize)> {
    if x == 0 {
        seq![(x as usize, yy as usize), ((x + 1) as usize, yy as usize)]
    } else if x == size - 1 {
        seq![((x - 1) as usize, yy as usize), (x as usize, yy as usize)]
    } else {
        seq![
            ((x - 1) as usize, yy as usize),
            (x as usize, yy as usize),
            ((x + 1) as usize, yy as usize),
        ]
    }
}

/// The ordered list of in-bounds neighbor coordinates of `(x, y)`: the row
/// above (absent when `y` is the first row), the row below (absent when `y`
/// is the last row), then the left and right neighbors in row `y` itself
/// (absent in the first and last column respectively). A cell never lists
/// itself, and on a grid of side 1 the single cell has no neighbors at all.
pub open spec fn nbr_seq(size: int, x: int, y: int) -> Seq<(usize, usize)> {
    (if y != 0 {
        row_band(size, x, y - 1)
    } else {
        Seq::<(usize, usize)>::empty()
    }) + (if y != size - 1 {
        row_band(size, x, y + 1)
    } else {
        Seq::<(usize, usize)>::empty()
    }) + (if x != 0 {
        seq![((x - 1) as usize, y as usize)]
    } else {
        Seq::<(usize, usize)>::empty()
    }) + (if x != size - 1 {
        seq![((x + 1) as usize, y as usize)]
    } else {
        Seq::<(usize, usize)>::empty()
    })
}

/// How many neighbors `(x, y)` has on a grid of side `size`: the adjacent
/// rows present contribute one cell per in-bounds column each, and the cell's
/// own row contributes its in-bounds horizontal neighbors.
pub open spec fn nbr_count(size: int, x: int, y: int) -> int {
    (if y != 0 {
        1int
    } else {
        0int
    }) * row_width(size, x) + (if y != size - 1 {
        1int
    } else {
        0int
    }) * row_width(size, x) + (row_width(size, x) - 1)
}

/// Number of in-bounds columns among `x - 1`, `x`, `x + 1`.
pub open spec fn row_width(size: int, x: int) -> int {
    1 + (if x != 0 {
        1int
    } else {
        0int
    }) + (if x != size - 1 {
        1int
    } else {
        0int
    })
}

/// Live cells of `cells` at the positions listed in `nbrs`, positions off
/// the grid counting as dead.
pub open spec fn seq_live_count(size: int, cells: Seq<bool>, nbrs: Seq<(usize, usize)>) -> int
    decreases nbrs.len(),
{
    if nbrs.len() == 0 {
        0
    } else {
        seq_live_count(size, cells, nbrs.drop_last()) + alive_at(
            size,
            cells,
            nbrs.last().0 as int,
            nbrs.last().1 as int,
        )
    }
}

proof fn lemma_count_concat(
    size: int,
    cells: Seq<bool>,
    a: Seq<(usize, usize)>,
    b: Seq<(usize, usize)>,
)
    ensures
        seq_live_count(size, cells, a + b) == seq_live_count(size, cells, a) + seq_live_count(
            size,
            cells,
            b,
        ),
    decreases b.len(),
{
    if b.len() == 0 {
        assert(a + b =~= a);
    } else {
        lemma_count_concat(size, cells, a, b.drop_last());
        assert((a + b).drop_last() =~= a + b.drop_last());
        assert((a + b).last() == b.last());
    }
}

/// Row-major indices: an in-bounds `(x, y)` maps to an index below
/// `size * size`, and the mapping is inverted by remainder and division.
pub proof fn lemma_rm_index(size: int, x: int, y: int)
    requires
        0 <= x < size,
        0 <= y < size,
    ensures
        0 <= rm_index(size, x, y) < size * size,
        rm_index(size, x, y) % size == x,
        rm_index(size, x, y) / size == y,
{
    vstd::arithmetic::div_mod::lemma_fundamental_div_mod_converse(y * size + x, size, y, x);
    assert(0 <= y * size + x < size * size) by (nonlinear_arith)
        requires
            0 <= x < size,
            0 <= y < size,
    ;
}

proof fn lemma_count_push(size: int, cells: Seq<bool>, s: Seq<(usize, usize)>, p: (usize, usize))
    ensures
        seq_live_count(size, cells, s.push(p)) == seq_live_count(size, cells, s) + alive_at(
            size,
            cells,
            p.0 as int,
            p.1 as int,
        ),
{
    assert(s.push(p).drop_last() =~= s);
    assert(s.push(p).last() == p);
}

proof fn lemma_row_band_count(size: int, cells: Seq<bool>, x: int, yy: int)
    requires
        0 <= x < size,
        0 <= yy < size,
        size <= usize::MAX,
    ensures
        seq_live_count(size, cells, row_band(size, x, yy)) == alive_at(size, cells, x - 1, yy)
            + alive_at(size, cells, x, yy) + alive_at(size, cells, x + 1, yy),
{
    let b = row_band(size, x, yy);
    let e = Seq::<(usize, usize)>::empty();
    assert(seq_live_count(size, cells, e) == 0);
    if x == 0 {
        let p0 = (x as usize, yy as usize);
        let p1 = ((x + 1) as usize, yy as usize);
        assert(b =~= e.push(p0).push(p1));
        lemma_count_push(size, cells, e.push(p0), p1);
        lemma_count_push(size, cells, e, p0);
        assert(alive_at(size, cells, x - 1, yy) == 0);
    } else if x == size - 1 {
        let p0 = ((x - 1) as usize, yy as usize);
        let p1 = (x as usize, yy as usize);
        assert(b =~= e.push(p0).push(p1));
        lemma_count_push(size, cells, e.push(p0), p1);
        lemma_count_push(size, cells, e, p0);
        assert(alive_at(size, cells, x + 1, yy) == 0);
    } else {
        let p0 = ((x - 1) as usize, yy as usize);
        let p1 = (x as usize, yy as usize);
        let p2 = ((x + 1) as usize, yy as usize);
        assert(b =~= e.push(p0).push(p1).push(p2));
        lemma_count_push(size, cells, e.push(p0).push(p1), p2);
        lemma_count_push(size, cells, e.push(p0), p1);
        lemma_count_push(size, cells, e, p0);
    }
}

/// Counting the live cells at the stored neighbor positions of `(x, y)`
/// gives exactly the live count over the eight adjacent grid positions.
pub proof fn lemma_nbr_seq_count(size: int, cells: Seq<bool>, x: int, y: int)
    requires
        0 <= x < size,
        0 <= y < size,
        size <= usize::MAX,
    ensures
        seq_live_count(size, cells, nbr_seq(size, x, y)) == live_neighbors(size, cells, x, y),
{
    let empty = Seq::<(usize, usize)>::empty();
    let above = if y != 0 {
        row_band(size, x, y - 1)
    } else {
        empty
    };
    let below = if y != size - 1 {
        row_band(size, x, y + 1)
    } else {
        empty
    };
    let left = if x != 0 {
        seq![((x - 1) as usize, y as usize)]
    } else {
        empty
    };
    let right = if x != size - 1 {
        seq![((x + 1) as usize, y as usize)]
    } else {
        empty
    };
    assert(nbr_seq(size, x, y) == above + below + left + right);
    lemma_count_concat(size, cells, above + below + left, right);
    lemma_count_concat(size, cells, above + below, left);
    lemma_count_concat(size, cells, above, below);
    if y != 0 {
        lemma_row_band_count(size, cells, x, y - 1);
    } else {
        assert(seq_live_count(size, cells, above) == 0);
        assert(alive_at(size, cells, x - 1, y - 1) == 0);
        assert(alive_at(size, cells, x, y - 1) == 0);
        assert(alive_at(size, cells, x + 1, y - 1) == 0);
    }
    if y != size - 1 {
        lemma_row_band_count(size, cells, x, y + 1);
    } else {
        assert(seq_live_count(size, cells, below) == 0);
        assert(alive_at(size, cells, x - 1, y + 1) == 0);
        assert(alive_at(size, cells, x, y + 1) == 0);
        assert(alive_at(size, cells, x + 1, y + 1) == 0);
    }
    if x != 0 {
        let q = ((x - 1) as usize, y as usize);
        assert(left =~= empty.push(q));
        lemma_count_push(size, cells, empty, q);
        assert(seq_live_count(size, cells, empty) == 0);
    } else {
        assert(alive_at(size, cells, x - 1, y) == 0);
    }
    if x != size - 1 {
        let q = ((x + 1) as usize, y as usize);
        assert(right =~= empty.push(q));
        lemma_count_push(size, cells, empty, q);
        assert(seq_live_count(size, cells, empty) == 0);
    } else {
        assert(alive_at(size, cells, x + 1, y) == 0);
    }
}

/// Every stored neighbor list has the length the topology dictates.
pub proof fn lemma_nbr_seq_len(size: int, x: int, y: int)
    requires
        0 <= x < size,
        0 <= y < size,
    ensures
        nbr_seq(size, x, y).len() == nbr_count(size, x, y),
{
}

/// True when `(x, y)` lies on the first or last row or column.
pub open spec fn on_boundary(size: int, x: int, y: int) -> bool {
    x == 0 || x == size - 1 || y == 0 || y == size - 1
}

/// True when `(x, y)` is one of the four corners.
pub open spec fn is_corner(size: int, x: int, y: int) -> bool {
    (x == 0 || x == size - 1) && (y == 0 || y == size - 1)
}

/// Neighbor-count invariant: on a grid of side at least 2, a corner cell
/// has exactly 3 neighbors, an edge (non-corner) cell exactly 5 and an
/// interior cell exactly 8; on a grid of side 1 the single cell has none.
pub proof fn lemma_neighbor_count_invariant(size: int, x: int, y: int)
    requires
        0 <= x < size,
        0 <= y < size,
    ensures
        size == 1 ==> nbr_seq(size, x, y).len() == 0,
        size >= 2 && is_corner(size, x, y) ==> nbr_seq(size, x, y).len() == 3,
        size >= 2 && on_boundary(size, x, y) && !is_corner(size, x, y) ==> nbr_seq(
            size,
            x,
            y,
        ).len() == 5,
        !on_boundary(size, x, y) ==> nbr_seq(size, x, y).len() == 8,
{
    lemma_nbr_seq_len(size, x, y);
}

/// Every entry of a stored neighbor list is an in-bounds coordinate
/// adjacent to `(x, y)` and distinct from `(x, y)` itself.
pub proof fn lemma_nbr_seq_sound(size: int, x: int, y: int)
    requires
        0 <= x < size,
        0 <= y < size,
        size <= usize::MAX,
    ensures
        forall|i: int|
            0 <= i < nbr_seq(size, x, y).len() ==> {
                let p = #[trigger] nbr_seq(size, x, y)[i];
                &&& in_bounds(size, p.0 as int, p.1 as int)
                &&& !(p.0 as int == x && p.1 as int == y)
                &&& -1 <= p.0 as int - x <= 1
                &&& -1 <= p.1 as int - y <= 1
            },
{
}

/// One grid position: a liveness flag and the fixed list of in-bounds
/// neighbor coordinates, built once per grid allocation.
struct Field {
    alive: bool,
    neighbours: Vec<(usize, usize)>,
}

impl Field {
    /// A dead cell at `(x, y)` carrying exactly the clipped neighbor list
    /// for a grid of side `size`.
    fn new(x: usize, y: usize, size: usize) -> (r: Field)
        requires
            x < size,
            y < size,
        ensures
            r.alive == false,
            r.neighbours@ == nbr_seq(size as int, x as int, y as int),
    {
        let mut neighbours: Vec<(usize, usize)> = Vec::with_capacity(8);

        // row above
        if y != 0 {
            if x == 0 {
                neighbours.push((x, y - 1));
                neighbours.push((x + 1, y - 1));
            } else if x == size - 1 {
                neighbours.push((x - 1, y - 1));
                neighbours.push((x, y - 1));
            } else {
                neighbours.push((x - 1, y - 1));
                neighbours.push((x, y - 1));
                neighbours.push((x + 1, y - 1));
            }
        }
        // row below
        if y != size - 1 {
            if x == 0 {
                neighbours.push((x, y + 1));
                neighbours.push((x + 1, y + 1));
            } else if x == size - 1 {
                neighbours.push((x - 1, y + 1));
                neighbours.push((x, y + 1));
            } else {
                neighbours.push((x - 1, y + 1));
                neighbours.push((x, y + 1));
                neighbours.push((x + 1, y + 1));
            }
        }
        // own row
        if x != 0 {
            neighbours.push((x - 1, y));
        }
        if x != size - 1 {
            neighbours.push((x + 1, y));
        }

        proof {
            assert(neighbours@ =~= nbr_seq(size as int, x as int, y as int));
        }

        Field { alive: false, neighbours }
    }
}

/// Copy of a coordinate list, element for element.
#[verifier::loop_isolation(false)]
fn copy_pairs(v: &Vec<(usize, usize)>) -> (r: Vec<(usize, usize)>)
    ensures
        r@ == v@,
{
    let mut r: Vec<(usize, usize)> = Vec::with_capacity(v.len());
    let mut i: usize = 0;
    while i < v.len()
        invariant
            i <= v@.len(),
            r@ == v@.take(i as int),
        decreases v@.len() - i,
    {
        let p = v[i];
        r.push(p);
        proof {
            assert(r@ =~= v@.take(i as int + 1));
        }
        i = i + 1;
    }
    proof {
        assert(v@.take(v@.len() as int) =~= v@);
    }
    r
}

/// Deep copy of one cell: same liveness, same neighbor list.
fn copy_field(f: &Field) -> (r: Field)
    ensures
        r.alive == f.alive,
        r.neighbours@ == f.neighbours@,
{
    Field { alive: f.alive, neighbours: copy_pairs(&f.neighbours) }
}

/// The liveness flags of `fields`, in row-major order.
spec fn cells_of(fields: Seq<Field>) -> Seq<bool> {
    fields.map_values(|f: Field| f.alive)
}

/// A square grid of cells with a generation counter. Cells are stored in
/// row-major order: the cell at `(x, y)` sits at index `y * size + x`.
pub struct Grid {
    size: usize,
    grid: Vec<Field>,
    generation: u32,
}

impl Grid {
    /// Side length of the grid.
    pub closed spec fn spec_size(&self) -> int {
        self.size as int
    }

    /// Liveness of every cell, in row-major order.
    pub closed spec fn cells(&self) -> Seq<bool> {
        cells_of(self.grid@)
    }

    /// The generation counter.
    pub closed spec fn spec_generation(&self) -> int {
        self.generation as int
    }

    /// Length of the stored neighbor list of the cell at row-major index `k`.
    pub closed spec fn nbr_list_len(&self, k: int) -> int {
        self.grid@[k].neighbours@.len() as int
    }

    /// Well-formed: one cell per grid position, and each cell carries
    /// exactly the clipped neighbor list of its own coordinates.
    pub closed spec fn wf(&self) -> bool {
        &&& self.grid@.len() == self.spec_size() * self.spec_size()
        &&& self.spec_size() * self.spec_size() <= usize::MAX
        &&& forall|k: int|
            0 <= k < self.grid@.len() ==> (#[trigger] self.grid@[k]).neighbours@ == nbr_seq(
                self.spec_size(),
                k % self.spec_size(),
                k / self.spec_size(),
            )
    }

    /// A grid of side `size` at generation 0 with every cell dead and
    /// every cell's neighbor list precomputed.
    #[verifier::loop_isolation(false)]
    pub fn new(size: usize) -> (r: Grid)
        requires
            size * size <= usize::MAX,
        ensures
            r.wf(),
            r.spec_size() == size,
            r.spec_generation() == 0,
            r.cells().len() == size * size,
            forall|k: int| 0 <= k < r.cells().len() ==> !r.cells()[k],
    {
        let total = size * size;
        let mut grid: Vec<Field> = Vec::with_capacity(total);
        let mut i: usize = 0;
        while i < total
            invariant
                i <= total,
                grid@.len() == i,
                forall|k: int| 0 <= k < i ==> !(#[trigger] grid@[k]).alive,
                forall|k: int|
                    0 <= k < i ==> (#[trigger] grid@[k]).neighbours@ == nbr_seq(
                        size as int,
                        k % size as int,
                        k / size as int,
                    ),
            decreases total - i,
        {
            proof {
                lemma_index_coords(size as int, i as int);
            }
            let x = i % size;
            let y = i / size;
            grid.push(Field::new(x, y, size));
            i = i + 1;
        }
        let r = Grid { size, grid, generation: 0 };
        proof {
            assert forall|k: int| 0 <= k < r.cells().len() implies !r.cells()[k] by {
                assert(r.cells()[k] == r.grid@[k].alive);
            }
        }
        r
    }

    /// Side length of the grid.
    pub fn get_size(&self) -> (s: usize)
        ensures
            s as int == self.spec_size(),
    {
        self.size
    }

    /// Liveness of the cell at `(x, y)`. Coordinates outside the grid are a
    /// caller error and are excluded up front.
    pub fn is_field_alive(&self, x: usize, y: usize) -> (alive: bool)
        requires
            self.wf(),
            x < self.spec_size(),
            y < self.spec_size(),
        ensures
            alive == self.cells()[rm_index(self.spec_size(), x as int, y as int)],
    {
        proof {
            lemma_rm_index(self.spec_size(), x as int, y as int);
        }
        self.grid[y * self.size + x].alive
    }

    /// The generation counter: 0 for a fresh grid, increased by exactly 1
    /// per advance.
    pub fn get_generation(&self) -> (g: u32)
        ensures
            g as int == self.spec_generation(),
    {
        self.generation
    }
}

impl Clone for Grid {
    /// Deep copy of the whole grid: same side length, same generation, same
    /// liveness and same topology, sharing nothing with the original.
    #[verifier::loop_isolation(false)]
    fn clone(&self) -> (r: Grid)
        ensures
            r.spec_size() == self.spec_size(),
            r.spec_generation() == self.spec_generation(),
            r.cells() == self.cells(),
            self.wf() ==> r.wf(),
    {
        let mut grid: Vec<Field> = Vec::with_capacity(self.grid.len());
        let mut i: usize = 0;
        while i < self.grid.len()
            invariant
                i <= self.grid@.len(),
                grid@.len() == i,
                forall|k: int| 0 <= k < i ==> (#[trigger] grid@[k]).alive == self.grid@[k].alive,
                forall|k: int|
                    0 <= k < i ==> (#[trigger] grid@[k]).neighbours@
                        == self.grid@[k].neighbours@,
            decreases self.grid@.len() - i,
        {
            grid.push(copy_field(&self.grid[i]));
            i = i + 1;
        }
        let r = Grid { size: self.size, grid, generation: self.generation };
        proof {
            assert(r.cells() =~= self.cells());
        }
        r
    }
}

/// Coordinates recovered from a row-major index: for `0 <= i < size * size`,
/// the pair `(i % size, i / size)` is in bounds and maps back to `i`.
pub proof fn lemma_index_coords(size: int, i: int)
    requires
        0 < size,
        0 <= i < size * size,
    ensures
        0 <= i % size < size,
        0 <= i / size < size,
        rm_index(size, i % size, i / size) == i,
{
    vstd::arithmetic::div_mod::lemma_fundamental_div_mod(i, size);
    let q = i / size;
    let r = i % size;
    assert(0 <= r < size) by {
        vstd::arithmetic::div_mod::lemma_mod_pos_bound(i, size);
    }
    assert(0 <= q < size) by (nonlinear_arith)
        requires
            i == size * q + r,
            0 <= r < size,
            0 <= i < size * size,
    ;
    assert(q * size + r == i) by (nonlinear_arith)
        requires
            i == size * q + r,
    ;
}

/// The default birth rule: a dead cell comes to life with exactly 3 live
/// neighbors.
pub open spec fn default_born() -> Seq<u8> {
    seq![3u8]
}

/// The default survival rule: a live cell stays alive with 2 or 3 live
/// neighbors.
pub open spec fn default_survive() -> Seq<u8> {
    seq![2u8, 3u8]
}

/// Liveness of the cell at `(x, y)` in the next generation: a live cell
/// survives iff its live-neighbor count is listed in `survive`, a dead cell
/// is born iff the count is listed in `born`. Counts are taken against the
/// current `cells`, never against a half-updated grid.
pub open spec fn step_cell(
    born: Seq<u8>,
    survive: Seq<u8>,
    size: int,
    cells: Seq<bool>,
    x: int,
    y: int,
) -> bool {
    let n = live_neighbors(size, cells, x, y);
    if cells[rm_index(size, x, y)] {
        survive.contains(n as u8)
    } else {
        born.contains(n as u8)
    }
}

/// The whole next generation, every cell computed in lock-step against the
/// same current `cells`.
pub open spec fn step_board(born: Seq<u8>, survive: Seq<u8>, size: int, cells: Seq<bool>) -> Seq<
    bool,
> {
    Seq::new(cells.len(), |k: int| step_cell(born, survive, size, cells, k % size, k / size))
}

/// Whether `rule` lists the neighbor count `n`.
#[verifier::loop_isolation(false)]
fn contains_rule(rule: &Vec<u8>, n: u8) -> (r: bool)
    ensures
        r == rule@.contains(n),
{
    let mut i: usize = 0;
    while i < rule.len()
        invariant
            i <= rule@.len(),
            forall|j: int| 0 <= j < i ==> rule@[j] != n,
        decreases rule@.len() - i,
    {
        if rule[i] == n {
            return true;
        }
        i = i + 1;
    }
    false
}

/// Live cells of `fields` at the positions listed in `nbrs`.
#[verifier::loop_isolation(false)]
fn count_live(fields: &Vec<Field>, size: usize, nbrs: &Vec<(usize, usize)>) -> (n: u8)
    requires
        fields@.len() == size * size,
        size * size <= usize::MAX,
        nbrs@.len() <= 8,
        forall|i: int|
            0 <= i < nbrs@.len() ==> in_bounds(
                size as int,
                (#[trigger] nbrs@[i]).0 as int,
                nbrs@[i].1 as int,
            ),
    ensures
        n as int == seq_live_count(size as int, cells_of(fields@), nbrs@),
{
    let mut n: u8 = 0;
    let mut i: usize = 0;
    while i < nbrs.len()
        invariant
            i <= nbrs@.len(),
            n as int <= i,
            n as int == seq_live_count(size as int, cells_of(fields@), nbrs@.take(i as int)),
        decreases nbrs@.len() - i,
    {
        let p = nbrs[i];
        proof {
            lemma_rm_index(size as int, p.0 as int, p.1 as int);
            lemma_count_push(size as int, cells_of(fields@), nbrs@.take(i as int), p);
            assert(nbrs@.take(i as int).push(p) =~= nbrs@.take(i as int + 1));
        }
        if fields[p.1 * size + p.0].alive {
            n = n + 1;
        }
        i = i + 1;
    }
    proof {
        assert(nbrs@.take(nbrs@.len() as int) =~= nbrs@);
    }
    n
}

/// The simulation engine: one grid (the current state) plus the rule set in
/// effect. The rule sets accept arbitrary neighbor-count thresholds; values
/// that no real count can reach are inert.
pub struct Game {
    board: Grid,
    born: Vec<u8>,
    survive: Vec<u8>,
}

impl Game {
    /// The grid the engine currently owns.
    pub closed spec fn spec_board(&self) -> Grid {
        self.board
    }

    /// The birth thresholds in effect.
    pub closed spec fn born_rule(&self) -> Seq<u8> {
        self.born@
    }

    /// The survival thresholds in effect.
    pub closed spec fn survive_rule(&self) -> Seq<u8> {
        self.survive@
    }

    /// Well-formed: the owned grid is.
    pub open spec fn wf(&self) -> bool {
        self.spec_board().wf()
    }

    /// A new engine with the default rules, a grid of side `size` at
    /// generation 0, and every cell dead.
    pub fn new(size: usize) -> (g: Game)
        requires
            size * size <= usize::MAX,
        ensures
            g.wf(),
            g.spec_board().spec_size() == size,
            g.spec_board().spec_generation() == 0,
            g.spec_board().cells().len() == size * size,
            forall|k: int| 0 <= k < g.spec_board().cells().len() ==> !g.spec_board().cells()[k],
            g.born_rule() == default_born(),
            g.survive_rule() == default_survive(),
    {
        let mut born: Vec<u8> = Vec::new();
        born.push(3);
        let mut survive: Vec<u8> = Vec::new();
        survive.push(2);
        survive.push(3);
        proof {
            assert(born@ =~= default_born());
            assert(survive@ =~= default_survive());
        }
        Game { board: Grid::new(size), born, survive }
    }

    /// A new engine as `new`, but with the given rule sets.
    pub fn new_with_rules(size: usize, born: Vec<u8>, survive: Vec<u8>) -> (g: Game)
        requires
            size * size <= usize::MAX,
        ensures
            g.wf(),
            g.spec_board().spec_size() == size,
            g.spec_board().spec_generation() == 0,
            g.spec_board().cells().len() == size * size,
            forall|k: int| 0 <= k < g.spec_board().cells().len() ==> !g.spec_board().cells()[k],
            g.born_rule() == born@,
            g.survive_rule() == survive@,
    {
        Game { board: Grid::new(size), born, survive }
    }

    /// Discards the grid and rebuilds it from scratch at side `size`:
    /// generation 0, all liveness lost, fresh topology. The rule set is kept.
    pub fn resize(&mut self, size: usize)
        requires
            size * size <= usize::MAX,
        ensures
            final(self).wf(),
            final(self).spec_board().spec_size() == size,
            final(self).spec_board().spec_generation() == 0,
            final(self).spec_board().cells().len() == size * size,
            forall|k: int|
                0 <= k < final(self).spec_board().cells().len() ==> !final(self).spec_board().cells()[k],
            final(self).born_rule() == old(self).born_rule(),
            final(self).survive_rule() == old(self).survive_rule(),
    {
        self.board = Grid::new(size);
    }

    /// Flips the liveness of the cell at `(x, y)` in place and returns the
    /// new value. Coordinates outside the grid are a caller error and are
    /// excluded up front.
    pub fn toggle_field(&mut self, x: usize, y: usize) -> (alive: bool)
        requires
            old(self).wf(),
            x < old(self).spec_board().spec_size(),
            y < old(self).spec_board().spec_size(),
        ensures
            final(self).wf(),
            final(self).spec_board().spec_size() == old(self).spec_board().spec_size(),
            final(self).spec_board().spec_generation() == old(self).spec_board().spec_generation(),
            final(self).born_rule() == old(self).born_rule(),
            final(self).survive_rule() == old(self).survive_rule(),
            alive == !old(self).spec_board().cells()[rm_index(
                old(self).spec_board().spec_size(),
                x as int,
                y as int,
            )],
            final(self).spec_board().cells() == old(self).spec_board().cells().update(
                rm_index(old(self).spec_board().spec_size(), x as int, y as int),
                alive,
            ),
    {
        proof {
            lemma_rm_index(self.board.spec_size(), x as int, y as int);
        }
        let pos = y * self.board.size + x;
        let cur = self.board.grid[pos].alive;
        let nb = copy_pairs(&self.board.grid[pos].neighbours);
        let next = !cur;
        self.board.grid.set(pos, Field { alive: next, neighbours: nb });
        proof {
            assert(self.spec_board().cells() =~= old(self).spec_board().cells().update(
                pos as int,
                next,
            ));
            assert(self.wf());
        }
        next
    }

    /// Replaces the rule set. The grid is untouched; the new rules take
    /// effect on the next advance.
    pub fn set_rules(&mut self, born: Vec<u8>, survive: Vec<u8>)
        ensures
            final(self).born_rule() == born@,
            final(self).survive_rule() == survive@,
            final(self).spec_board() == old(self).spec_board(),
    {
        self.born = born;
        self.survive = survive;
    }

    /// Read-only deep copy of the current grid.
    pub fn get_board(&self) -> (b: Grid)
        ensures
            b.spec_size() == self.spec_board().spec_size(),
            b.spec_generation() == self.spec_board().spec_generation(),
            b.cells() == self.spec_board().cells(),
            self.wf() ==> b.wf(),
    {
        self.board.clone()
    }

    /// One synchronous generation step: every cell of the next grid is
    /// computed against the current grid and the rules in effect, the
    /// generation counter grows by exactly 1, and the grid as it was before
    /// the call is returned as an independent snapshot. Calls can be
    /// repeated without bound: the sequence of snapshots never ends.
    #[verifier::loop_isolation(false)]
    pub fn advance(&mut self) -> (prev: Grid)
        requires
            old(self).wf(),
            old(self).spec_board().spec_generation() < u32::MAX,
        ensures
            final(self).wf(),
            final(self).born_rule() == old(self).born_rule(),
            final(self).survive_rule() == old(self).survive_rule(),
            final(self).spec_board().spec_size() == old(self).spec_board().spec_size(),
            final(self).spec_board().spec_generation() == old(self).spec_board().spec_generation() + 1,
            final(self).spec_board().cells() == step_board(
                old(self).born_rule(),
                old(self).survive_rule(),
                old(self).spec_board().spec_size(),
                old(self).spec_board().cells(),
            ),
            prev.wf(),
            prev.spec_size() == old(self).spec_board().spec_size(),
            prev.spec_generation() == old(self).spec_board().spec_generation(),
            prev.cells() == old(self).spec_board().cells(),
    {
        let prev = self.board.clone();
        let size = self.board.size;
        let total = self.board.grid.len();
        let mut next: Vec<Field> = Vec::with_capacity(total);
        let mut i: usize = 0;
        while i < total
            invariant
                i <= total,
                next@.len() == i,
                forall|k: int|
                    0 <= k < i ==> (#[trigger] next@[k]).alive == step_cell(
                        self.born@,
                        self.survive@,
                        size as int,
                        cells_of(self.board.grid@),
                        k % size as int,
                        k / size as int,
                    ),
                forall|k: int|
                    0 <= k < i ==> (#[trigger] next@[k]).neighbours@
                        == self.board.grid@[k].neighbours@,
            decreases total - i,
        {
            let ghost gx = i as int % size as int;
            let ghost gy = i as int / size as int;
            proof {
                lemma_index_coords(size as int, i as int);
                lemma_nbr_seq_sound(size as int, gx, gy);
                lemma_nbr_seq_len(size as int, gx, gy);
                lemma_nbr_seq_count(size as int, cells_of(self.board.grid@), gx, gy);
                assert(nbr_seq(size as int, gx, gy).len() <= 8);
            }
            let f = &self.board.grid[i];
            let cnt = count_live(&self.board.grid, size, &f.neighbours);
            let next_alive = if f.alive {
                contains_rule(&self.survive, cnt)
            } else {
                contains_rule(&self.born, cnt)
            };
            proof {
                assert(cells_of(self.board.grid@)[rm_index(size as int, gx, gy)] == f.alive);
                assert(cnt as int == live_neighbors(size as int, cells_of(self.board.grid@), gx, gy));
                assert(next_alive == step_cell(
                    self.born@,
                    self.survive@,
                    size as int,
                    cells_of(self.board.grid@),
                    gx,
                    gy,
                ));
            }
            let nb = copy_pairs(&f.neighbours);
            next.push(Field { alive: next_alive, neighbours: nb });
            i = i + 1;
        }
        let gen = self.board.generation + 1;
        self.board = Grid { size, grid: next, generation: gen };
        proof {
            assert(self.spec_board().cells() =~= step_board(
                old(self).born_rule(),
                old(self).survive_rule(),
                old(self).spec_board().spec_size(),
                old(self).spec_board().cells(),
            ));
            assert(self.wf());
        }
        prev
    }
}

/// Neighbor-count invariant on an actual grid: the stored list of the cell
/// at `(x, y)` has the length that `nbr_seq` dictates.
pub proof fn lemma_grid_neighbor_count(g: &Grid, x: int, y: int)
    requires
        g.wf(),
        0 <= x < g.spec_size(),
        0 <= y < g.spec_size(),
    ensures
        g.nbr_list_len(rm_index(g.spec_size(), x, y)) == nbr_seq(g.spec_size(), x, y).len(),
{
    lemma_rm_index(g.spec_size(), x, y);
}

/// Stasis under empty rules: with no birth thresholds and no survival
/// thresholds, every cell of the next generation is dead, whatever the
/// current configuration.
pub proof fn lemma_empty_rules_clear(size: int, cells: Seq<bool>)
    ensures
        forall|k: int|
            0 <= k < cells.len() ==> !step_board(
                Seq::<u8>::empty(),
                Seq::<u8>::empty(),
                size,
                cells,
            )[k],
{
}

/// Advance determinism: two engines with the same grid state and the same
/// rule set compute the same next generation. The step is a function of the
/// observable state alone, with no hidden source of variation.
pub proof fn lemma_advance_deterministic(a: Game, b: Game)
    requires
        a.spec_board().spec_size() == b.spec_board().spec_size(),
        a.spec_board().cells() == b.spec_board().cells(),
        a.born_rule() == b.born_rule(),
        a.survive_rule() == b.survive_rule(),
    ensures
        step_board(
            a.born_rule(),
            a.survive_rule(),
            a.spec_board().spec_size(),
            a.spec_board().cells(),
        ) == step_board(
            b.born_rule(),
            b.survive_rule(),
            b.spec_board().spec_size(),
            b.spec_board().cells(),
        ),
{
}

/// Idempotent rule replacement: installing the rule values already in effect
/// leaves the outcome of the next advance unchanged.
pub proof fn lemma_rule_replacement_idempotent(g: Game, born: Seq<u8>, survive: Seq<u8>)
    requires
        born == g.born_rule(),
        survive == g.survive_rule(),
    ensures
        step_board(born, survive, g.spec_board().spec_size(), g.spec_board().cells())
            == step_board(
            g.born_rule(),
            g.survive_rule(),
            g.spec_board().spec_size(),
            g.spec_board().cells(),
        ),
{
}

} // verus!
