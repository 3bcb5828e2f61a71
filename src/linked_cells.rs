use vstd::prelude::*;

verus! {

/// One square of the uniform grid: the indices of the particles binned into it,
/// in the order in which they were added.
#[derive(Debug, Clone)]
pub struct Cell {
    pub particle_ids: Vec<usize>,
}

/// A place in a grid: column, row, and slot within that cell's list.
pub type Loc = (int, int, int);

/// `n`, but never less than one: the number of cells along an axis.
pub open spec fn at_least_one(n: int) -> int {
    if n < 1 {
        1
    } else {
        n
    }
}

/// Where the cell at column `x` and row `y` is stored in a grid `nx` cells wide.
pub open spec fn cell_index(nx: int, x: int, y: int) -> int {
    nx * y + x
}

/// Whether column `x` and row `y` name a cell of an `nx` by `ny` grid.
pub open spec fn in_grid(nx: int, ny: int, x: int, y: int) -> bool {
    0 <= x < nx && 0 <= y < ny
}

/// The ids held by cell `(x, y)`; empty when `(x, y)` lies outside the grid.
pub open spec fn cell_at(grid: Seq<Seq<usize>>, nx: int, ny: int, x: int, y: int) -> Seq<usize> {
    if in_grid(nx, ny, x, y) {
        grid[cell_index(nx, x, y)]
    } else {
        Seq::empty()
    }
}

/// `l` names an occupied slot of the grid.
pub open spec fn valid_loc(grid: Seq<Seq<usize>>, nx: int, ny: int, l: Loc) -> bool {
    &&& in_grid(nx, ny, l.0, l.1)
    &&& 0 <= l.2 < cell_at(grid, nx, ny, l.0, l.1).len()
}

/// The id stored at `l`.
pub open spec fn id_at(grid: Seq<Seq<usize>>, nx: int, ny: int, l: Loc) -> usize {
    cell_at(grid, nx, ny, l.0, l.1)[l.2]
}

/// No id is stored at two places of the grid.
pub open spec fn ids_distinct(grid: Seq<Seq<usize>>, nx: int, ny: int) -> bool {
    forall|l1: Loc, l2: Loc|
        valid_loc(grid, nx, ny, l1) && valid_loc(grid, nx, ny, l2) && #[trigger] id_at(
            grid,
            nx,
            ny,
            l1,
        ) == #[trigger] id_at(grid, nx, ny, l2) ==> l1 == l2
}

/// Some occupied slot of the grid holds `id`.
pub open spec fn holds_id(grid: Seq<Seq<usize>>, nx: int, ny: int, id: int) -> bool {
    exists|l: Loc| valid_loc(grid, nx, ny, l) && id_at(grid, nx, ny, l) == id
}

/// The number of ids held by all cells together.
pub open spec fn total_len(grid: Seq<Seq<usize>>) -> int
    decreases grid.len(),
{
    if grid.len() == 0 {
        0
    } else {
        total_len(grid.drop_last()) + grid.last().len()
    }
}

/// The ids among `0..n` whose cell, as `cells_of` gives it, is the cell stored at `k`,
/// in increasing order.
pub open spec fn binned(cells_of: Seq<(usize, usize)>, nx: int, k: int, n: int) -> Seq<usize>
    decreases n,
{
    if n <= 0 {
        Seq::empty()
    } else {
        let prev = binned(cells_of, nx, k, n - 1);
        if cell_index(nx, cells_of[n - 1].0 as int, cells_of[n - 1].1 as int) == k {
            prev.push((n - 1) as usize)
        } else {
            prev
        }
    }
}

/// The grid that binning particle `i` into cell `cells_of[i]`, for every `i` in order,
/// makes out of an empty `nx` by `ny` grid.
pub open spec fn binned_grid(cells_of: Seq<(usize, usize)>, nx: int, ny: int) -> Seq<Seq<usize>> {
    Seq::new((nx * ny) as nat, |k: int| binned(cells_of, nx, k, cells_of.len() as int))
}

/// Every entry of `cells_of` names a cell of an `nx` by `ny` grid.
pub open spec fn all_in_grid(cells_of: Seq<(usize, usize)>, nx: int, ny: int) -> bool {
    forall|i: int| 0 <= i < cells_of.len() ==> in_grid(nx, ny, #[trigger] cells_of[i].0 as int, cells_of[i].1 as int)
}

/// A uniform grid of `num_x` by `num_y` cells over the simulation domain. The cell at
/// column `x` and row `y` is stored at `num_x * y + x`.
#[derive(Debug, Clone)]
pub struct LinkedCells {
    num_x: usize,
    num_y: usize,
    cells: Vec<Cell>,
}

impl LinkedCells {
    pub closed spec fn nx(&self) -> int {
        self.num_x as int
    }

    pub closed spec fn ny(&self) -> int {
        self.num_y as int
    }

    /// The ids of every cell, in storage order.
    pub closed spec fn grid(&self) -> Seq<Seq<usize>> {
        self.cells@.map_values(|c: Cell| c.particle_ids@)
    }

    pub open spec fn wf(&self) -> bool {
        &&& 1 <= self.nx()
        &&& 1 <= self.ny()
        &&& self.nx() * self.ny() <= usize::MAX
        &&& self.grid().len() == self.nx() * self.ny()
    }

    /// The ids of cell `(x, y)`; empty outside the grid.
    pub open spec fn cell_ids(&self, x: int, y: int) -> Seq<usize> {
        cell_at(self.grid(), self.nx(), self.ny(), x, y)
    }

    pub open spec fn is_empty_grid(&self) -> bool {
        forall|k: int| 0 <= k < self.grid().len() ==> #[trigger] self.grid()[k].len() == 0
    }

    /// An empty grid of `cells_x` by `cells_y` cells, where a count of zero is taken as one.
    pub fn new(cells_x: usize, cells_y: usize) -> (r: Self)
        requires
            at_least_one(cells_x as int) * at_least_one(cells_y as int) <= usize::MAX,
        ensures
            r.wf(),
            r.nx() == at_least_one(cells_x as int),
            r.ny() == at_least_one(cells_y as int),
            r.is_empty_grid(),
    {
        let num_x: usize = if cells_x == 0 { 1 } else { cells_x };
        let num_y: usize = if cells_y == 0 { 1 } else { cells_y };
        let num_cells: usize = num_x * num_y;
        let mut cells: Vec<Cell> = Vec::new();
        let mut k: usize = 0;
        while k < num_cells
            invariant
                k <= num_cells,
                cells@.len() == k,
                forall|j: int| 0 <= j < k ==> (#[trigger] cells@[j]).particle_ids@.len() == 0,
            decreases num_cells - k,
        {
            cells.push(Cell { particle_ids: Vec::new() });
            k = k + 1;
        }
        LinkedCells { num_x, num_y, cells }
    }

    pub fn get_num_x(&self) -> (r: usize)
        ensures
            r == self.nx(),
    {
        self.num_x
    }

    pub fn get_num_y(&self) -> (r: usize)
        ensures
            r == self.ny(),
    {
        self.num_y
    }

    /// The cell at column `x` and row `y`, or `None` when that is outside the grid.
    pub fn get_cell(&self, x: usize, y: usize) -> (r: Option<&Cell>)
        requires
            self.wf(),
        ensures
            r.is_some() == in_grid(self.nx(), self.ny(), x as int, y as int),
            r matches Some(c) ==> c.particle_ids@ == self.cell_ids(x as int, y as int),
    {
        if self.num_x <= x || self.num_y <= y {
            return None;
        }
        proof {
            lemma_cell_index_bounds(self.nx(), self.ny(), x as int, y as int);
        }
        let index: usize = self.num_x * y + x;
        Some(&self.cells[index])
    }

    /// The cell `dx` columns and `dy` rows away from `(x, y)`, or `None` when that is
    /// outside the grid. The grid does not wrap around.
    pub fn get_adjusted_cell(&self, x: usize, y: usize, dx: i32, dy: i32) -> (r: Option<&Cell>)
        requires
            self.wf(),
        ensures
            r.is_some() == in_grid(self.nx(), self.ny(), x + dx, y + dy),
            r matches Some(c) ==> c.particle_ids@ == self.cell_ids(x + dx, y + dy),
    {
        match (shift(x, dx), shift(y, dy)) {
            (Some(ax), Some(ay)) => self.get_cell(ax, ay),
            _ => None,
        }
    }

    /// The cell at column `x` and row `y`, to change in place, or `None` when that is
    /// outside the grid. Only that cell changes.
    pub fn get_mut_cell(&mut self, x: usize, y: usize) -> (r: Option<&mut Cell>)
        requires
            old(self).wf(),
        ensures
            r.is_some() == in_grid(old(self).nx(), old(self).ny(), x as int, y as int),
            final(self).nx() == old(self).nx(),
            final(self).ny() == old(self).ny(),
            match r {
                Some(c) => {
                    &&& c.particle_ids@ == old(self).cell_ids(x as int, y as int)
                    &&& final(self).grid() == old(self).grid().update(
                        cell_index(old(self).nx(), x as int, y as int),
                        final(c).particle_ids@,
                    )
                },
                None => final(self).grid() == old(self).grid(),
            },
    {
        if self.num_x <= x || self.num_y <= y {
            return None;
        }
        proof {
            lemma_cell_index_bounds(self.nx(), self.ny(), x as int, y as int);
        }
        let index: usize = self.num_x * y + x;
        Some(&mut self.cells[index])
    }

    /// Appends `id` to the cell at column `ix` and row `iy`.
    pub fn add_particle(&mut self, ix: usize, iy: usize, id: usize)
        requires
            old(self).wf(),
            in_grid(old(self).nx(), old(self).ny(), ix as int, iy as int),
        ensures
            final(self).wf(),
            final(self).nx() == old(self).nx(),
            final(self).ny() == old(self).ny(),
            final(self).grid() == old(self).grid().update(
                cell_index(old(self).nx(), ix as int, iy as int),
                old(self).grid()[cell_index(old(self).nx(), ix as int, iy as int)].push(id),
            ),
    {
        proof {
            lemma_cell_index_bounds(self.nx(), self.ny(), ix as int, iy as int);
        }
        if let Some(cell) = self.get_mut_cell(ix, iy) {
            cell.particle_ids.push(id);
        }
    }

    /// Bins particle `i` into cell `cells_of[i]`, for every `i` in increasing order.
    /// Binning every particle into an empty grid leaves each particle in exactly one cell,
    /// and the cells hold as many ids as there are particles.
    pub fn bin_particles(&mut self, cells_of: &Vec<(usize, usize)>)
        requires
            old(self).wf(),
            all_in_grid(cells_of@, old(self).nx(), old(self).ny()),
        ensures
            final(self).wf(),
            final(self).nx() == old(self).nx(),
            final(self).ny() == old(self).ny(),
            forall|k: int|
                0 <= k < final(self).grid().len() ==> #[trigger] final(self).grid()[k]
                    == old(self).grid()[k] + binned(cells_of@, old(self).nx(), k, cells_of@.len() as int),
            old(self).is_empty_grid() ==> final(self).grid() == binned_grid(cells_of@, old(self).nx(), old(self).ny()),
            old(self).is_empty_grid() ==> total_len(final(self).grid()) == cells_of@.len(),
            old(self).is_empty_grid() ==> ids_distinct(final(self).grid(), final(self).nx(), final(self).ny()),
    {
        let ghost g0 = self.grid();
        let ghost nx = self.nx();
        let mut i: usize = 0;
        while i < cells_of.len()
            invariant
                i <= cells_of@.len(),
                self.wf(),
                self.nx() == nx,
                self.ny() == old(self).ny(),
                nx == old(self).nx(),
                g0 == old(self).grid(),
                g0.len() == self.grid().len(),
                all_in_grid(cells_of@, nx, self.ny()),
                forall|k: int|
                    0 <= k < self.grid().len() ==> #[trigger] self.grid()[k] == g0[k] + binned(cells_of@, nx, k, i as int),
            decreases cells_of@.len() - i,
        {
            let (ix, iy) = cells_of[i];
            let ghost before = self.grid();
            self.add_particle(ix, iy, i);
            proof {
                let j = cell_index(nx, ix as int, iy as int);
                assert(in_grid(nx, self.ny(), ix as int, iy as int));
                lemma_cell_index_bounds(nx, self.ny(), ix as int, iy as int);
                assert(self.grid() == before.update(j, before[j].push(i)));
                assert(in_grid(nx, self.ny(), cells_of@[i as int].0 as int, cells_of@[i as int].1 as int));
                assert forall|k: int| 0 <= k < self.grid().len() implies #[trigger] self.grid()[k] == g0[k]
                    + binned(cells_of@, nx, k, i + 1) by {
                    assert(before[k] == g0[k] + binned(cells_of@, nx, k, i as int));
                    let prev = binned(cells_of@, nx, k, i as int);
                    if k == cell_index(nx, ix as int, iy as int) {
                        assert(binned(cells_of@, nx, k, i + 1) == prev.push(i));
                        assert(self.grid()[k] == before[k].push(i));
                        assert(self.grid()[k] =~= g0[k] + binned(cells_of@, nx, k, i + 1));
                    } else {
                        assert(binned(cells_of@, nx, k, i + 1) == prev);
                        assert(self.grid()[k] == before[k]);
                    }
                }
            }
            i = i + 1;
        }
        proof {
            if old(self).is_empty_grid() {
                assert(self.grid() =~= binned_grid(cells_of@, nx, self.ny())) by {
                    assert forall|k: int| 0 <= k < self.grid().len() implies #[trigger] self.grid()[k]
                        == binned_grid(cells_of@, nx, self.ny())[k] by {
                        assert(g0[k].len() == 0);
                        assert(g0[k] + binned(cells_of@, nx, k, i as int) =~= binned(cells_of@, nx, k, i as int));
                    }
                }
                binning_is_total(nx, self.ny(), cells_of@);
            }
        }
    }
}

/// `v + d`, or `None` when that is not a `usize`.
fn shift(v: usize, d: i32) -> (r: Option<usize>)
    ensures
        match r {
            Some(w) => w == v + d,
            None => v + d < 0 || v + d > usize::MAX,
        },
{
    if d < 0 {
        let m = (0 - (d as i64)) as usize;
        if v < m {
            None
        } else {
            Some(v - m)
        }
    } else {
        let m = d as usize;
        if v > usize::MAX - m {
            None
        } else {
            Some(v + m)
        }
    }
}

proof fn lemma_cell_index_bounds(nx: int, ny: int, x: int, y: int)
    requires
        in_grid(nx, ny, x, y),
    ensures
        0 <= cell_index(nx, x, y) < nx * ny,
{
    assert(0 <= nx * y + x < nx * ny) by (nonlinear_arith)
        requires
            0 <= x < nx,
            0 <= y < ny,
    ;
}

/// Two cells of one grid are stored at the same place only if they are the same cell.
proof fn lemma_cell_index_injective(nx: int, ny: int, x1: int, y1: int, x2: int, y2: int)
    requires
        in_grid(nx, ny, x1, y1),
        in_grid(nx, ny, x2, y2),
        cell_index(nx, x1, y1) == cell_index(nx, x2, y2),
    ensures
        x1 == x2 && y1 == y2,
{
    if y1 < y2 {
        assert(nx * y1 + x1 < nx * y2 + x2) by (nonlinear_arith)
            requires
                0 <= x1 < nx,
                0 <= x2,
                y1 < y2,
        ;
    } else if y2 < y1 {
        assert(nx * y2 + x2 < nx * y1 + x1) by (nonlinear_arith)
            requires
                0 <= x2 < nx,
                0 <= x1,
                y2 < y1,
        ;
    }
}

/// What `binned` holds: ids below `n`, of cell `k`, in strictly increasing order.
proof fn lemma_binned_members(cells_of: Seq<(usize, usize)>, nx: int, k: int, n: int)
    requires
        0 <= n <= cells_of.len() <= usize::MAX,
    ensures
        forall|s: int|
            0 <= s < binned(cells_of, nx, k, n).len() ==> {
                let id = #[trigger] binned(cells_of, nx, k, n)[s];
                &&& id < n
                &&& cell_index(nx, cells_of[id as int].0 as int, cells_of[id as int].1 as int) == k
            },
        forall|s1: int, s2: int|
            0 <= s1 < s2 < binned(cells_of, nx, k, n).len() ==> #[trigger] binned(cells_of, nx, k, n)[s1]
                < #[trigger] binned(cells_of, nx, k, n)[s2],
    decreases n,
{
    if n > 0 {
        lemma_binned_members(cells_of, nx, k, n - 1);
        let prev = binned(cells_of, nx, k, n - 1);
        assert forall|s: int| 0 <= s < prev.len() implies #[trigger] prev[s] < n - 1 by {
            assert(prev[s] < n - 1);
        }
    }
}

/// Every id below `n` is in `binned` of its own cell.
proof fn lemma_binned_contains(cells_of: Seq<(usize, usize)>, nx: int, n: int, id: int)
    requires
        0 <= id < n <= cells_of.len() <= usize::MAX,
    ensures
        binned(cells_of, nx, cell_index(nx, cells_of[id].0 as int, cells_of[id].1 as int), n).contains(
            id as usize,
        ),
    decreases n,
{
    let k = cell_index(nx, cells_of[id].0 as int, cells_of[id].1 as int);
    if id < n - 1 {
        lemma_binned_contains(cells_of, nx, n - 1, id);
        let prev = binned(cells_of, nx, k, n - 1);
        let j = choose|j: int| 0 <= j < prev.len() && prev[j] == id as usize;
        assert(binned(cells_of, nx, k, n)[j] == id as usize);
    } else {
        let b = binned(cells_of, nx, k, n);
        assert(b[b.len() - 1] == id as usize);
    }
}

/// Growing one entry of a sequence of sequences by one element grows `total_len` by one.
proof fn lemma_total_len_bump(g1: Seq<Seq<usize>>, g2: Seq<Seq<usize>>, k0: int)
    requires
        g1.len() == g2.len(),
        0 <= k0 < g1.len(),
        forall|k: int|
            0 <= k < g1.len() ==> #[trigger] g2[k].len() == g1[k].len() + if k == k0 {
                1int
            } else {
                0int
            },
    ensures
        total_len(g2) == total_len(g1) + 1,
    decreases g1.len(),
{
    let n = g1.len() - 1;
    if k0 < n {
        assert forall|k: int| 0 <= k < n implies #[trigger] g2.drop_last()[k].len() == g1.drop_last()[k].len()
            + if k == k0 {
            1int
        } else {
            0int
        } by {
            assert(g2[k].len() == g1[k].len() + if k == k0 {
                1int
            } else {
                0int
            });
        }
        lemma_total_len_bump(g1.drop_last(), g2.drop_last(), k0);
        assert(g2[n].len() == g1[n].len());
    } else {
        lemma_total_len_same(g1.drop_last(), g2.drop_last());
        assert(g2[n].len() == g1[n].len() + 1);
    }
}

proof fn lemma_total_len_same(g1: Seq<Seq<usize>>, g2: Seq<Seq<usize>>)
    requires
        g1.len() == g2.len(),
        forall|k: int| 0 <= k < g1.len() ==> #[trigger] g2[k].len() == g1[k].len(),
    ensures
        total_len(g2) == total_len(g1),
    decreases g1.len(),
{
    if g1.len() > 0 {
        let n = g1.len() - 1;
        assert forall|k: int| 0 <= k < n implies #[trigger] g2.drop_last()[k].len() == g1.drop_last()[k].len() by {
            assert(g2[k].len() == g1[k].len());
        }
        lemma_total_len_same(g1.drop_last(), g2.drop_last());
        assert(g2[n].len() == g1[n].len());
    }
}

proof fn lemma_binned_total(cells_of: Seq<(usize, usize)>, nx: int, ny: int, n: int)
    requires
        1 <= nx,
        1 <= ny,
        0 <= n <= cells_of.len(),
        all_in_grid(cells_of, nx, ny),
    ensures
        total_len(Seq::new((nx * ny) as nat, |k: int| binned(cells_of, nx, k, n))) == n,
    decreases n,
{
    let g2 = Seq::new((nx * ny) as nat, |k: int| binned(cells_of, nx, k, n));
    if n == 0 {
        assert(nx * ny >= 1) by (nonlinear_arith)
            requires
                1 <= nx,
                1 <= ny,
        ;
        let g0 = Seq::<Seq<usize>>::empty();
        lemma_total_len_same(g0, g0);
        lemma_total_len_zero(g2);
    } else {
        lemma_binned_total(cells_of, nx, ny, n - 1);
        let g1 = Seq::new((nx * ny) as nat, |k: int| binned(cells_of, nx, k, n - 1));
        let k0 = cell_index(nx, cells_of[n - 1].0 as int, cells_of[n - 1].1 as int);
        assert(in_grid(nx, ny, cells_of[n - 1].0 as int, cells_of[n - 1].1 as int));
        lemma_cell_index_bounds(nx, ny, cells_of[n - 1].0 as int, cells_of[n - 1].1 as int);
        lemma_total_len_bump(g1, g2, k0);
    }
}

proof fn lemma_total_len_zero(g: Seq<Seq<usize>>)
    requires
        forall|k: int| 0 <= k < g.len() ==> #[trigger] g[k].len() == 0,
    ensures
        total_len(g) == 0,
    decreases g.len(),
{
    if g.len() > 0 {
        assert(g[g.len() - 1].len() == 0);
        lemma_total_len_zero(g.drop_last());
    }
}

/// Binning particles `0..n` into an empty grid, each into the cell that `cells_of` names,
/// puts every particle into exactly one cell, once, and nothing else: the cells together
/// hold `n` ids.
pub proof fn binning_is_total(nx: int, ny: int, cells_of: Seq<(usize, usize)>)
    requires
        cells_of.len() <= usize::MAX,
        1 <= nx,
        1 <= ny,
        all_in_grid(cells_of, nx, ny),
    ensures
        total_len(binned_grid(cells_of, nx, ny)) == cells_of.len(),
        ids_distinct(binned_grid(cells_of, nx, ny), nx, ny),
        forall|id: int| 0 <= id < cells_of.len() ==> #[trigger] holds_id(binned_grid(cells_of, nx, ny), nx, ny, id),
        forall|l: Loc|
            valid_loc(binned_grid(cells_of, nx, ny), nx, ny, l) ==> #[trigger] id_at(
                binned_grid(cells_of, nx, ny),
                nx,
                ny,
                l,
            ) < cells_of.len(),
{
    let n = cells_of.len() as int;
    let g = binned_grid(cells_of, nx, ny);
    lemma_binned_total(cells_of, nx, ny, n);
    assert forall|l: Loc| valid_loc(g, nx, ny, l) implies #[trigger] id_at(g, nx, ny, l) < n by {
        let k = cell_index(nx, l.0, l.1);
        lemma_cell_index_bounds(nx, ny, l.0, l.1);
        lemma_binned_members(cells_of, nx, k, n);
        assert(g[k] == binned(cells_of, nx, k, n));
    }
    assert forall|l1: Loc, l2: Loc|
        valid_loc(g, nx, ny, l1) && valid_loc(g, nx, ny, l2) && #[trigger] id_at(g, nx, ny, l1)
            == #[trigger] id_at(g, nx, ny, l2) implies l1 == l2 by {
        let k1 = cell_index(nx, l1.0, l1.1);
        let k2 = cell_index(nx, l2.0, l2.1);
        lemma_cell_index_bounds(nx, ny, l1.0, l1.1);
        lemma_cell_index_bounds(nx, ny, l2.0, l2.1);
        lemma_binned_members(cells_of, nx, k1, n);
        lemma_binned_members(cells_of, nx, k2, n);
        assert(g[k1] == binned(cells_of, nx, k1, n));
        assert(g[k2] == binned(cells_of, nx, k2, n));
        let id = id_at(g, nx, ny, l1);
        assert(binned(cells_of, nx, k1, n)[l1.2] == id);
        assert(binned(cells_of, nx, k2, n)[l2.2] == id);
        lemma_cell_index_injective(nx, ny, l1.0, l1.1, l2.0, l2.1);
        if l1.2 < l2.2 {
            assert(binned(cells_of, nx, k1, n)[l1.2] < binned(cells_of, nx, k1, n)[l2.2]);
        } else if l2.2 < l1.2 {
            assert(binned(cells_of, nx, k1, n)[l2.2] < binned(cells_of, nx, k1, n)[l1.2]);
        }
    }
    assert forall|id: int| 0 <= id < n implies #[trigger] holds_id(g, nx, ny, id) by {
        let x = cells_of[id].0 as int;
        let y = cells_of[id].1 as int;
        let k = cell_index(nx, x, y);
        assert(in_grid(nx, ny, x, y));
        lemma_cell_index_bounds(nx, ny, x, y);
        lemma_binned_contains(cells_of, nx, n, id);
        let b = binned(cells_of, nx, k, n);
        let s = choose|s: int| 0 <= s < b.len() && b[s] == id as usize;
        assert(g[k] == b);
        let l: Loc = (x, y, s);
        assert(valid_loc(g, nx, ny, l) && id_at(g, nx, ny, l) == id);
    }
}

} // verus!
