use vstd::prelude::*;

use crate::linked_cells::{
    all_in_grid, binned_grid, binning_is_total, cell_at, id_at, ids_distinct, in_grid, valid_loc,
    Cell, LinkedCells, Loc,
};
use crate::verlet_lists::{lemma_select_no_repeats, no_repeats, same_pair, select};

verus! {

/// Slot `b` lies in the half-neighbourhood of slot `a`: in the row above (one column left,
/// the same column or one column right), in the cell to the left, or later in the same cell.
/// No slot is ahead of itself, and of two slots at most one is ahead of the other.
pub open spec fn ahead(a: Loc, b: Loc) -> bool {
    let dx = b.0 - a.0;
    let dy = b.1 - a.1;
    ||| dy == 1 && -1 <= dx <= 1
    ||| dy == 0 && dx == -1
    ||| dx == 0 && dy == 0 && b.2 > a.2
}

/// The candidate partners of the particle in slot `s` of cell `(x, y)`: the cells at
/// offsets (-1, +1), (0, +1), (+1, +1) and (-1, 0), in that order, then the later slots of
/// its own cell. Cells outside the grid contribute nothing.
pub open spec fn stencil(grid: Seq<Seq<usize>>, nx: int, ny: int, x: int, y: int, s: int) -> Seq<usize> {
    cell_at(grid, nx, ny, x - 1, y + 1) + cell_at(grid, nx, ny, x, y + 1) + cell_at(grid, nx, ny, x + 1, y + 1)
        + cell_at(grid, nx, ny, x - 1, y) + cell_at(grid, nx, ny, x, y).skip(s + 1)
}

/// The slot that entry `j` of `stencil(grid, nx, ny, x, y, s)` comes from.
pub open spec fn stencil_loc(grid: Seq<Seq<usize>>, nx: int, ny: int, x: int, y: int, s: int, j: int) -> Loc {
    let l1 = cell_at(grid, nx, ny, x - 1, y + 1).len() as int;
    let l2 = cell_at(grid, nx, ny, x, y + 1).len() as int;
    let l3 = cell_at(grid, nx, ny, x + 1, y + 1).len() as int;
    let l4 = cell_at(grid, nx, ny, x - 1, y).len() as int;
    if j < l1 {
        (x - 1, y + 1, j)
    } else if j < l1 + l2 {
        (x, y + 1, j - l1)
    } else if j < l1 + l2 + l3 {
        (x + 1, y + 1, j - l1 - l2)
    } else if j < l1 + l2 + l3 + l4 {
        (x - 1, y, j - l1 - l2 - l3)
    } else {
        (x, y, s + 1 + (j - l1 - l2 - l3 - l4))
    }
}

/// The candidate pairs of the particle in slot `s` of cell `(x, y)`.
pub open spec fn slot_pairs(grid: Seq<Seq<usize>>, nx: int, ny: int, x: int, y: int, s: int) -> Seq<(usize, usize)> {
    let id1 = cell_at(grid, nx, ny, x, y)[s];
    stencil(grid, nx, ny, x, y, s).map_values(|b: usize| (id1, b))
}

/// The candidate pairs of the first `n` particles of cell `(x, y)`.
pub open spec fn cell_pairs(grid: Seq<Seq<usize>>, nx: int, ny: int, x: int, y: int, n: int) -> Seq<(usize, usize)>
    decreases n,
{
    if n <= 0 {
        Seq::empty()
    } else {
        cell_pairs(grid, nx, ny, x, y, n - 1) + slot_pairs(grid, nx, ny, x, y, n - 1)
    }
}

/// The candidate pairs of the first `m` cells of column `x`.
pub open spec fn column_pairs(grid: Seq<Seq<usize>>, nx: int, ny: int, x: int, m: int) -> Seq<(usize, usize)>
    decreases m,
{
    if m <= 0 {
        Seq::empty()
    } else {
        column_pairs(grid, nx, ny, x, m - 1) + cell_pairs(
            grid,
            nx,
            ny,
            x,
            m - 1,
            cell_at(grid, nx, ny, x, m - 1).len() as int,
        )
    }
}

/// The candidate pairs of the first `m` columns.
pub open spec fn grid_pairs(grid: Seq<Seq<usize>>, nx: int, ny: int, m: int) -> Seq<(usize, usize)>
    decreases m,
{
    if m <= 0 {
        Seq::empty()
    } else {
        grid_pairs(grid, nx, ny, m - 1) + column_pairs(grid, nx, ny, m - 1, ny)
    }
}

/// Every candidate pair of the grid, columns in order, within a column cells in order,
/// within a cell particles in order, and for each particle its stencil in order.
pub open spec fn candidate_seq(grid: Seq<Seq<usize>>, nx: int, ny: int) -> Seq<(usize, usize)> {
    grid_pairs(grid, nx, ny, nx)
}

/// Appends `src[start..]` to `out`.
fn extend_from(out: &mut Vec<usize>, src: &Vec<usize>, start: usize)
    requires
        start <= src@.len(),
    ensures
        final(out)@ == old(out)@ + src@.skip(start as int),
{
    let mut k: usize = start;
    while k < src.len()
        invariant
            start <= k <= src@.len(),
            out@ == old(out)@ + src@.subrange(start as int, k as int),
        decreases src@.len() - k,
    {
        out.push(src[k]);
        k = k + 1;
        proof {
            assert(out@ =~= old(out)@ + src@.subrange(start as int, k as int));
        }
    }
    proof {
        assert(src@.subrange(start as int, k as int) =~= src@.skip(start as int));
    }
}

/// Appends the ids of the cell `dx` columns and `dy` rows from `(x, y)`, if there is one.
fn extend_from_neighbor(out: &mut Vec<usize>, cells: &LinkedCells, x: usize, y: usize, dx: i32, dy: i32)
    requires
        cells.wf(),
    ensures
        final(out)@ == old(out)@ + cells.cell_ids(x + dx, y + dy),
{
    match cells.get_adjusted_cell(x, y, dx, dy) {
        Some(c) => {
            extend_from(out, &c.particle_ids, 0);
            proof {
                assert(c.particle_ids@.skip(0) =~= c.particle_ids@);
            }
        },
        None => {
            proof {
                assert(old(out)@ + cells.cell_ids(x + dx, y + dy) =~= old(out)@);
            }
        },
    }
}

/// The candidate partners of the particle in slot `i` of `cell`, the cell at `(x, y)`.
fn stencil_ids(cells: &LinkedCells, x: usize, y: usize, cell: &Cell, i: usize) -> (r: Vec<usize>)
    requires
        cells.wf(),
        in_grid(cells.nx(), cells.ny(), x as int, y as int),
        cell.particle_ids@ == cells.cell_ids(x as int, y as int),
        i < cell.particle_ids.len(),
    ensures
        r@ == stencil(cells.grid(), cells.nx(), cells.ny(), x as int, y as int, i as int),
{
    let mut r: Vec<usize> = Vec::new();
    extend_from_neighbor(&mut r, cells, x, y, -1, 1);
    extend_from_neighbor(&mut r, cells, x, y, 0, 1);
    extend_from_neighbor(&mut r, cells, x, y, 1, 1);
    extend_from_neighbor(&mut r, cells, x, y, -1, 0);
    extend_from(&mut r, &cell.particle_ids, i + 1);
    proof {
        assert(r@ =~= stencil(cells.grid(), cells.nx(), cells.ny(), x as int, y as int, i as int));
    }
    r
}

/// Every candidate pair of the grid, in the order of `candidate_seq`: for each cell, column
/// by column and within a column row by row, and for each particle of the cell in order, the
/// particle paired with each id of its half-neighbourhood. When no id is stored twice, no
/// pair joins a particle to itself and no two particles are paired twice, in either order.
pub fn candidate_pairs(cells: &LinkedCells) -> (r: Vec<(usize, usize)>)
    requires
        cells.wf(),
    ensures
        r@ == candidate_seq(cells.grid(), cells.nx(), cells.ny()),
        ids_distinct(cells.grid(), cells.nx(), cells.ny()) ==> no_repeats(r@),
{
    let ghost g = cells.grid();
    let ghost gnx = cells.nx();
    let ghost gny = cells.ny();
    let nx = cells.get_num_x();
    let ny = cells.get_num_y();
    let mut out: Vec<(usize, usize)> = Vec::new();
    let mut ix: usize = 0;
    while ix < nx
        invariant
            cells.wf(),
            g == cells.grid(),
            gnx == nx as int,
            gny == ny as int,
            gnx == cells.nx(),
            gny == cells.ny(),
            ix <= nx,
            out@ == grid_pairs(g, gnx, gny, ix as int),
        decreases nx - ix,
    {
        let mut iy: usize = 0;
        while iy < ny
            invariant
                cells.wf(),
                g == cells.grid(),
                gnx == nx as int,
                gny == ny as int,
                gnx == cells.nx(),
                gny == cells.ny(),
                ix < nx,
                iy <= ny,
                out@ == grid_pairs(g, gnx, gny, ix as int) + column_pairs(g, gnx, gny, ix as int, iy as int),
            decreases ny - iy,
        {
            let ghost base = grid_pairs(g, gnx, gny, ix as int) + column_pairs(g, gnx, gny, ix as int, iy as int);
            match cells.get_cell(ix, iy) {
                Some(cell) => {
                    let mut i: usize = 0;
                    while i < cell.particle_ids.len()
                        invariant
                            cells.wf(),
                            g == cells.grid(),
                            gnx == cells.nx(),
                            gny == cells.ny(),
                            in_grid(gnx, gny, ix as int, iy as int),
                            cell.particle_ids@ == cell_at(g, gnx, gny, ix as int, iy as int),
                            i <= cell.particle_ids@.len(),
                            out@ == base + cell_pairs(g, gnx, gny, ix as int, iy as int, i as int),
                        decreases cell.particle_ids@.len() - i,
                    {
                        let id1 = cell.particle_ids[i];
                        let partners = stencil_ids(cells, ix, iy, cell, i);
                        let ghost start = out@;
                        let ghost sp = slot_pairs(g, gnx, gny, ix as int, iy as int, i as int);
                        let mut j: usize = 0;
                        while j < partners.len()
                            invariant
                                j <= partners@.len(),
                                partners@ == stencil(g, gnx, gny, ix as int, iy as int, i as int),
                                id1 == cell_at(g, gnx, gny, ix as int, iy as int)[i as int],
                                sp == slot_pairs(g, gnx, gny, ix as int, iy as int, i as int),
                                out@ == start + sp.take(j as int),
                            decreases partners@.len() - j,
                        {
                            out.push((id1, partners[j]));
                            j = j + 1;
                            proof {
                                assert(out@ =~= start + sp.take(j as int));
                            }
                        }
                        i = i + 1;
                        proof {
                            assert(sp.take(j as int) =~= sp);
                            assert(out@ =~= base + cell_pairs(g, gnx, gny, ix as int, iy as int, i as int));
                        }
                    }
                    proof {
                        assert(out@ =~= grid_pairs(g, gnx, gny, ix as int) + column_pairs(
                            g,
                            gnx,
                            gny,
                            ix as int,
                            iy + 1,
                        ));
                    }
                },
                None => {},
            }
            iy = iy + 1;
        }
        ix = ix + 1;
        proof {
            assert(out@ =~= grid_pairs(g, gnx, gny, ix as int));
        }
    }
    proof {
        if ids_distinct(g, gnx, gny) {
            lemma_candidates_no_repeats(g, gnx, gny);
        }
    }
    out
}

/// The slot that holds `id`, where some slot does.
pub open spec fn loc_of(grid: Seq<Seq<usize>>, nx: int, ny: int, id: usize) -> Loc {
    choose|l: Loc| valid_loc(grid, nx, ny, l) && id_at(grid, nx, ny, l) == id
}

/// The two particles of `p` are stored in the grid, the second ahead of the first.
pub open spec fn forward_pair(grid: Seq<Seq<usize>>, nx: int, ny: int, p: (usize, usize)) -> bool {
    let la = loc_of(grid, nx, ny, p.0);
    let lb = loc_of(grid, nx, ny, p.1);
    &&& valid_loc(grid, nx, ny, la)
    &&& valid_loc(grid, nx, ny, lb)
    &&& id_at(grid, nx, ny, la) == p.0
    &&& id_at(grid, nx, ny, lb) == p.1
    &&& ahead(la, lb)
}

proof fn lemma_loc_of(grid: Seq<Seq<usize>>, nx: int, ny: int, l: Loc)
    requires
        ids_distinct(grid, nx, ny),
        valid_loc(grid, nx, ny, l),
    ensures
        loc_of(grid, nx, ny, id_at(grid, nx, ny, l)) == l,
{
    let id = id_at(grid, nx, ny, l);
    let c = loc_of(grid, nx, ny, id);
    assert(valid_loc(grid, nx, ny, c) && id_at(grid, nx, ny, c) == id);
}

/// Two forward pairs whose first particles sit in different slots are different pairs,
/// in either order.
proof fn lemma_forward_pairs_differ(grid: Seq<Seq<usize>>, nx: int, ny: int, p: (usize, usize), q: (usize, usize))
    requires
        forward_pair(grid, nx, ny, p),
        forward_pair(grid, nx, ny, q),
        loc_of(grid, nx, ny, p.0) != loc_of(grid, nx, ny, q.0),
    ensures
        !same_pair(p, q),
{
}

proof fn lemma_no_repeats_concat(a: Seq<(usize, usize)>, b: Seq<(usize, usize)>)
    requires
        no_repeats(a),
        no_repeats(b),
        forall|i: int, j: int| 0 <= i < a.len() && 0 <= j < b.len() ==> !same_pair(#[trigger] a[i], #[trigger] b[j]),
    ensures
        no_repeats(a + b),
{
    let c = a + b;
    assert forall|i: int| 0 <= i < c.len() implies (#[trigger] c[i]).0 != c[i].1 by {
        if i < a.len() {
            assert(c[i] == a[i]);
        } else {
            assert(c[i] == b[i - a.len()]);
        }
    }
    assert forall|i: int, j: int| 0 <= i < j < c.len() implies !same_pair(#[trigger] c[i], #[trigger] c[j]) by {
        if j < a.len() {
            assert(c[i] == a[i] && c[j] == a[j]);
        } else if i >= a.len() {
            assert(c[i] == b[i - a.len()] && c[j] == b[j - a.len()]);
        } else {
            assert(c[i] == a[i] && c[j] == b[j - a.len()]);
        }
    }
}

/// Entry `j` of a stencil is the id of slot `stencil_loc(.., j)`, a slot ahead of
/// `(x, y, s)`; different entries come from different slots.
proof fn lemma_stencil_loc(grid: Seq<Seq<usize>>, nx: int, ny: int, x: int, y: int, s: int)
    requires
        valid_loc(grid, nx, ny, (x, y, s)),
    ensures
        forall|j: int|
            0 <= j < stencil(grid, nx, ny, x, y, s).len() ==> {
                let l = #[trigger] stencil_loc(grid, nx, ny, x, y, s, j);
                &&& valid_loc(grid, nx, ny, l)
                &&& id_at(grid, nx, ny, l) == stencil(grid, nx, ny, x, y, s)[j]
                &&& ahead((x, y, s), l)
            },
        forall|j1: int, j2: int|
            0 <= j1 < j2 < stencil(grid, nx, ny, x, y, s).len() ==> #[trigger] stencil_loc(
                grid,
                nx,
                ny,
                x,
                y,
                s,
                j1,
            ) != #[trigger] stencil_loc(grid, nx, ny, x, y, s, j2),
{
    let st = stencil(grid, nx, ny, x, y, s);
    let c1 = cell_at(grid, nx, ny, x - 1, y + 1);
    let c2 = cell_at(grid, nx, ny, x, y + 1);
    let c3 = cell_at(grid, nx, ny, x + 1, y + 1);
    let c4 = cell_at(grid, nx, ny, x - 1, y);
    let c5 = cell_at(grid, nx, ny, x, y).skip(s + 1);
    let l1 = c1.len() as int;
    let l2 = c2.len() as int;
    let l3 = c3.len() as int;
    let l4 = c4.len() as int;
    assert forall|j: int| 0 <= j < st.len() implies {
        let l = #[trigger] stencil_loc(grid, nx, ny, x, y, s, j);
        &&& valid_loc(grid, nx, ny, l)
        &&& id_at(grid, nx, ny, l) == st[j]
        &&& ahead((x, y, s), l)
    } by {
        if j < l1 {
            assert(st[j] == c1[j]);
        } else if j < l1 + l2 {
            assert(st[j] == c2[j - l1]);
        } else if j < l1 + l2 + l3 {
            assert(st[j] == c3[j - l1 - l2]);
        } else if j < l1 + l2 + l3 + l4 {
            assert(st[j] == c4[j - l1 - l2 - l3]);
        } else {
            assert(st[j] == c5[j - l1 - l2 - l3 - l4]);
        }
    }
}

/// The candidate pairs of one slot: all forward pairs of that slot, without repeats.
proof fn lemma_slot_pairs(grid: Seq<Seq<usize>>, nx: int, ny: int, x: int, y: int, s: int)
    requires
        ids_distinct(grid, nx, ny),
        valid_loc(grid, nx, ny, (x, y, s)),
    ensures
        no_repeats(slot_pairs(grid, nx, ny, x, y, s)),
        forall|j: int|
            0 <= j < slot_pairs(grid, nx, ny, x, y, s).len() ==> forward_pair(
                grid,
                nx,
                ny,
                #[trigger] slot_pairs(grid, nx, ny, x, y, s)[j],
            ) && loc_of(grid, nx, ny, slot_pairs(grid, nx, ny, x, y, s)[j].0) == (x, y, s),
{
    let sp = slot_pairs(grid, nx, ny, x, y, s);
    let st = stencil(grid, nx, ny, x, y, s);
    let la: Loc = (x, y, s);
    lemma_stencil_loc(grid, nx, ny, x, y, s);
    lemma_loc_of(grid, nx, ny, la);
    assert forall|j: int| 0 <= j < sp.len() implies forward_pair(grid, nx, ny, #[trigger] sp[j]) && loc_of(
        grid,
        nx,
        ny,
        sp[j].0,
    ) == la by {
        let lb = stencil_loc(grid, nx, ny, x, y, s, j);
        lemma_loc_of(grid, nx, ny, lb);
        assert(sp[j] == (id_at(grid, nx, ny, la), st[j]));
    }
    assert forall|j1: int, j2: int| 0 <= j1 < j2 < sp.len() implies !same_pair(#[trigger] sp[j1], #[trigger] sp[j2]) by {
        let lb1 = stencil_loc(grid, nx, ny, x, y, s, j1);
        let lb2 = stencil_loc(grid, nx, ny, x, y, s, j2);
        lemma_loc_of(grid, nx, ny, lb1);
        lemma_loc_of(grid, nx, ny, lb2);
        assert(sp[j1] == (id_at(grid, nx, ny, la), st[j1]));
        assert(sp[j2] == (id_at(grid, nx, ny, la), st[j2]));
        assert(lb1 != lb2);
    }
}

proof fn lemma_cell_pairs(grid: Seq<Seq<usize>>, nx: int, ny: int, x: int, y: int, n: int)
    requires
        ids_distinct(grid, nx, ny),
        in_grid(nx, ny, x, y),
        0 <= n <= cell_at(grid, nx, ny, x, y).len(),
    ensures
        no_repeats(cell_pairs(grid, nx, ny, x, y, n)),
        forall|j: int|
            0 <= j < cell_pairs(grid, nx, ny, x, y, n).len() ==> {
                let p = #[trigger] cell_pairs(grid, nx, ny, x, y, n)[j];
                let la = loc_of(grid, nx, ny, p.0);
                &&& forward_pair(grid, nx, ny, p)
                &&& la.0 == x
                &&& la.1 == y
                &&& la.2 < n
            },
    decreases n,
{
    if n > 0 {
        let a = cell_pairs(grid, nx, ny, x, y, n - 1);
        let b = slot_pairs(grid, nx, ny, x, y, n - 1);
        let c = cell_pairs(grid, nx, ny, x, y, n);
        lemma_cell_pairs(grid, nx, ny, x, y, n - 1);
        lemma_slot_pairs(grid, nx, ny, x, y, n - 1);
        assert forall|i: int, j: int| 0 <= i < a.len() && 0 <= j < b.len() implies !same_pair(#[trigger] a[i], #[trigger] b[j]) by {
            lemma_forward_pairs_differ(grid, nx, ny, a[i], b[j]);
        }
        lemma_no_repeats_concat(a, b);
        assert forall|j: int| 0 <= j < c.len() implies {
            let p = #[trigger] c[j];
            let la = loc_of(grid, nx, ny, p.0);
            &&& forward_pair(grid, nx, ny, p)
            &&& la.0 == x
            &&& la.1 == y
            &&& la.2 < n
        } by {
            if j < a.len() {
                assert(c[j] == a[j]);
            } else {
                assert(c[j] == b[j - a.len()]);
            }
        }
    }
}

proof fn lemma_column_pairs(grid: Seq<Seq<usize>>, nx: int, ny: int, x: int, m: int)
    requires
        ids_distinct(grid, nx, ny),
        0 <= x < nx,
        0 <= m <= ny,
    ensures
        no_repeats(column_pairs(grid, nx, ny, x, m)),
        forall|j: int|
            0 <= j < column_pairs(grid, nx, ny, x, m).len() ==> {
                let p = #[trigger] column_pairs(grid, nx, ny, x, m)[j];
                let la = loc_of(grid, nx, ny, p.0);
                &&& forward_pair(grid, nx, ny, p)
                &&& la.0 == x
                &&& la.1 < m
            },
    decreases m,
{
    if m > 0 {
        let a = column_pairs(grid, nx, ny, x, m - 1);
        let n = cell_at(grid, nx, ny, x, m - 1).len() as int;
        let b = cell_pairs(grid, nx, ny, x, m - 1, n);
        let c = column_pairs(grid, nx, ny, x, m);
        lemma_column_pairs(grid, nx, ny, x, m - 1);
        lemma_cell_pairs(grid, nx, ny, x, m - 1, n);
        assert forall|i: int, j: int| 0 <= i < a.len() && 0 <= j < b.len() implies !same_pair(#[trigger] a[i], #[trigger] b[j]) by {
            lemma_forward_pairs_differ(grid, nx, ny, a[i], b[j]);
        }
        lemma_no_repeats_concat(a, b);
        assert forall|j: int| 0 <= j < c.len() implies {
            let p = #[trigger] c[j];
            let la = loc_of(grid, nx, ny, p.0);
            &&& forward_pair(grid, nx, ny, p)
            &&& la.0 == x
            &&& la.1 < m
        } by {
            if j < a.len() {
                assert(c[j] == a[j]);
            } else {
                assert(c[j] == b[j - a.len()]);
            }
        }
    }
}

proof fn lemma_grid_pairs(grid: Seq<Seq<usize>>, nx: int, ny: int, m: int)
    requires
        ids_distinct(grid, nx, ny),
        0 <= m <= nx,
        0 <= ny,
    ensures
        no_repeats(grid_pairs(grid, nx, ny, m)),
        forall|j: int|
            0 <= j < grid_pairs(grid, nx, ny, m).len() ==> {
                let p = #[trigger] grid_pairs(grid, nx, ny, m)[j];
                &&& forward_pair(grid, nx, ny, p)
                &&& loc_of(grid, nx, ny, p.0).0 < m
            },
    decreases m,
{
    if m > 0 {
        let a = grid_pairs(grid, nx, ny, m - 1);
        let b = column_pairs(grid, nx, ny, m - 1, ny);
        let c = grid_pairs(grid, nx, ny, m);
        lemma_grid_pairs(grid, nx, ny, m - 1);
        lemma_column_pairs(grid, nx, ny, m - 1, ny);
        assert forall|i: int, j: int| 0 <= i < a.len() && 0 <= j < b.len() implies !same_pair(#[trigger] a[i], #[trigger] b[j]) by {
            lemma_forward_pairs_differ(grid, nx, ny, a[i], b[j]);
        }
        lemma_no_repeats_concat(a, b);
        assert forall|j: int| 0 <= j < c.len() implies {
            let p = #[trigger] c[j];
            &&& forward_pair(grid, nx, ny, p)
            &&& loc_of(grid, nx, ny, p.0).0 < m
        } by {
            if j < a.len() {
                assert(c[j] == a[j]);
            } else {
                assert(c[j] == b[j - a.len()]);
            }
        }
    }
}

/// When no id is stored twice, the candidate pairs hold no self-pair and no pair twice,
/// in either order.
pub proof fn lemma_candidates_no_repeats(grid: Seq<Seq<usize>>, nx: int, ny: int)
    requires
        ids_distinct(grid, nx, ny),
        0 <= nx,
        0 <= ny,
    ensures
        no_repeats(candidate_seq(grid, nx, ny)),
{
    lemma_grid_pairs(grid, nx, ny, nx);
}

/// After binning particles `0..n` into an empty grid, whatever subset of the candidate
/// pairs passes the distance test, in order, holds no pair of a particle with itself and
/// pairs no two particles twice, in either order.
pub proof fn verlet_pairs_unique(nx: int, ny: int, cells_of: Seq<(usize, usize)>, keep: Seq<bool>)
    requires
        cells_of.len() <= usize::MAX,
        1 <= nx,
        1 <= ny,
        all_in_grid(cells_of, nx, ny),
        keep.len() == candidate_seq(binned_grid(cells_of, nx, ny), nx, ny).len(),
    ensures
        no_repeats(select(candidate_seq(binned_grid(cells_of, nx, ny), nx, ny), keep)),
{
    let g = binned_grid(cells_of, nx, ny);
    let cands = candidate_seq(g, nx, ny);
    binning_is_total(nx, ny, cells_of);
    lemma_candidates_no_repeats(g, nx, ny);
    lemma_select_no_repeats(cands, keep, cands.len() as int);
}

/// The candidate pairs of cell `(x, y)` include those of each of its first `n` slots.
proof fn lemma_in_cell_pairs(grid: Seq<Seq<usize>>, nx: int, ny: int, x: int, y: int, n: int, s: int, i: int)
    requires
        0 <= s < n,
        0 <= i < slot_pairs(grid, nx, ny, x, y, s).len(),
    ensures
        cell_pairs(grid, nx, ny, x, y, n).contains(slot_pairs(grid, nx, ny, x, y, s)[i]),
    decreases n,
{
    let a = cell_pairs(grid, nx, ny, x, y, n - 1);
    let c = cell_pairs(grid, nx, ny, x, y, n);
    let p = slot_pairs(grid, nx, ny, x, y, s)[i];
    if s == n - 1 {
        assert(c[a.len() + i] == p);
    } else {
        lemma_in_cell_pairs(grid, nx, ny, x, y, n - 1, s, i);
        let k = choose|k: int| 0 <= k < a.len() && a[k] == p;
        assert(c[k] == p);
    }
}

/// The candidate pairs of the first `m` cells of column `x` include those of each of them.
proof fn lemma_in_column_pairs(grid: Seq<Seq<usize>>, nx: int, ny: int, x: int, m: int, y: int, p: (usize, usize))
    requires
        0 <= y < m,
        cell_pairs(grid, nx, ny, x, y, cell_at(grid, nx, ny, x, y).len() as int).contains(p),
    ensures
        column_pairs(grid, nx, ny, x, m).contains(p),
    decreases m,
{
    let a = column_pairs(grid, nx, ny, x, m - 1);
    let b = cell_pairs(grid, nx, ny, x, m - 1, cell_at(grid, nx, ny, x, m - 1).len() as int);
    let c = column_pairs(grid, nx, ny, x, m);
    if y == m - 1 {
        let k = choose|k: int| 0 <= k < b.len() && b[k] == p;
        assert(c[a.len() + k] == p);
    } else {
        lemma_in_column_pairs(grid, nx, ny, x, m - 1, y, p);
        let k = choose|k: int| 0 <= k < a.len() && a[k] == p;
        assert(c[k] == p);
    }
}

/// The candidate pairs of the first `m` columns include those of each of them.
proof fn lemma_in_grid_pairs(grid: Seq<Seq<usize>>, nx: int, ny: int, m: int, x: int, p: (usize, usize))
    requires
        0 <= x < m,
        column_pairs(grid, nx, ny, x, ny).contains(p),
    ensures
        grid_pairs(grid, nx, ny, m).contains(p),
    decreases m,
{
    let a = grid_pairs(grid, nx, ny, m - 1);
    let b = column_pairs(grid, nx, ny, m - 1, ny);
    let c = grid_pairs(grid, nx, ny, m);
    if x == m - 1 {
        let k = choose|k: int| 0 <= k < b.len() && b[k] == p;
        assert(c[a.len() + k] == p);
    } else {
        lemma_in_grid_pairs(grid, nx, ny, m - 1, x, p);
        let k = choose|k: int| 0 <= k < a.len() && a[k] == p;
        assert(c[k] == p);
    }
}

/// A particle is paired with every particle in a slot ahead of its own.
proof fn lemma_ahead_is_candidate(grid: Seq<Seq<usize>>, nx: int, ny: int, la: Loc, lb: Loc)
    requires
        valid_loc(grid, nx, ny, la),
        valid_loc(grid, nx, ny, lb),
        ahead(la, lb),
    ensures
        candidate_seq(grid, nx, ny).contains((id_at(grid, nx, ny, la), id_at(grid, nx, ny, lb))),
{
    let (x, y, s) = la;
    let st = stencil(grid, nx, ny, x, y, s);
    let l1 = cell_at(grid, nx, ny, x - 1, y + 1).len() as int;
    let l2 = cell_at(grid, nx, ny, x, y + 1).len() as int;
    let l3 = cell_at(grid, nx, ny, x + 1, y + 1).len() as int;
    let l4 = cell_at(grid, nx, ny, x - 1, y).len() as int;
    let j = if lb.0 == x - 1 && lb.1 == y + 1 {
        lb.2
    } else if lb.0 == x && lb.1 == y + 1 {
        l1 + lb.2
    } else if lb.0 == x + 1 && lb.1 == y + 1 {
        l1 + l2 + lb.2
    } else if lb.0 == x - 1 && lb.1 == y {
        l1 + l2 + l3 + lb.2
    } else {
        l1 + l2 + l3 + l4 + (lb.2 - s - 1)
    };
    assert(0 <= j < st.len());
    assert(stencil_loc(grid, nx, ny, x, y, s, j) == lb);
    lemma_stencil_loc(grid, nx, ny, x, y, s);
    let p = (id_at(grid, nx, ny, la), id_at(grid, nx, ny, lb));
    assert(slot_pairs(grid, nx, ny, x, y, s)[j] == p);
    let n = cell_at(grid, nx, ny, x, y).len() as int;
    lemma_in_cell_pairs(grid, nx, ny, x, y, n, s, j);
    lemma_in_column_pairs(grid, nx, ny, x, ny, y, p);
    lemma_in_grid_pairs(grid, nx, ny, nx, x, p);
}

/// Any two particles in one cell, or in cells that touch along a side or at a corner,
/// are a candidate pair in one order or the other. With `candidate_pairs` giving no pair
/// twice, each such pair is a candidate exactly once.
pub proof fn neighbours_are_candidates(grid: Seq<Seq<usize>>, nx: int, ny: int, la: Loc, lb: Loc)
    requires
        valid_loc(grid, nx, ny, la),
        valid_loc(grid, nx, ny, lb),
        la != lb,
        -1 <= lb.0 - la.0 <= 1,
        -1 <= lb.1 - la.1 <= 1,
    ensures
        candidate_seq(grid, nx, ny).contains((id_at(grid, nx, ny, la), id_at(grid, nx, ny, lb)))
            || candidate_seq(grid, nx, ny).contains((id_at(grid, nx, ny, lb), id_at(grid, nx, ny, la))),
{
    if ahead(la, lb) {
        lemma_ahead_is_candidate(grid, nx, ny, la, lb);
    } else {
        assert(ahead(lb, la));
        lemma_ahead_is_candidate(grid, nx, ny, lb, la);
    }
}

} // verus!
