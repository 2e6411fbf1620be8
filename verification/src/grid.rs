use vstd::arithmetic::power::pow;
use vstd::arithmetic::power2::{lemma2_to64, lemma_pow2, lemma_pow2_strictly_increases, lemma_pow2_unfold, pow2};
use crate::sprinkle::Sprinkler;
use vstd::prelude::*;

verus! {

/// Sum of a row of counts.
pub open spec fn row_sum(r: Seq<usize>) -> int
    decreases r.len(),
{
    if r.len() == 0 {
        0
    } else {
        row_sum(r.drop_last()) + r.last()
    }
}

/// Sum of all counts of a grid.
pub open spec fn grid_sum(g: Seq<Seq<usize>>) -> int
    decreases g.len(),
{
    if g.len() == 0 {
        0
    } else {
        grid_sum(g.drop_last()) + row_sum(g.last())
    }
}

/// Adding `delta` to one entry of a row adds `delta` to its sum.
pub proof fn lemma_row_sum_update(r: Seq<usize>, j: int, v: usize)
    requires
        0 <= j < r.len(),
    ensures
        row_sum(r.update(j, v)) == row_sum(r) - r[j] + v,
    decreases r.len(),
{
    let u = r.update(j, v);
    if j < r.len() - 1 {
        assert(u.drop_last() == r.drop_last().update(j, v));
        lemma_row_sum_update(r.drop_last(), j, v);
    } else {
        assert(u.drop_last() == r.drop_last());
    }
}

/// Replacing one row of a grid changes its sum by the change of that row's sum.
pub proof fn lemma_grid_sum_update(g: Seq<Seq<usize>>, i: int, r: Seq<usize>)
    requires
        0 <= i < g.len(),
    ensures
        grid_sum(g.update(i, r)) == grid_sum(g) - row_sum(g[i]) + row_sum(r),
    decreases g.len(),
{
    let u = g.update(i, r);
    if i < g.len() - 1 {
        assert(u.drop_last() == g.drop_last().update(i, r));
        lemma_grid_sum_update(g.drop_last(), i, r);
    } else {
        assert(u.drop_last() == g.drop_last());
    }
}

/// A row of zeros sums to zero.
pub proof fn lemma_row_sum_zero(r: Seq<usize>)
    requires
        forall|j: int| 0 <= j < r.len() ==> r[j] == 0,
    ensures
        row_sum(r) == 0,
    decreases r.len(),
{
    if r.len() > 0 {
        lemma_row_sum_zero(r.drop_last());
    }
}

/// A grid of zeros sums to zero.
pub proof fn lemma_grid_sum_zero(g: Seq<Seq<usize>>)
    requires
        forall|i: int, j: int| 0 <= i < g.len() && 0 <= j < g[i].len() ==> g[i][j] == 0,
    ensures
        grid_sum(g) == 0,
    decreases g.len(),
{
    if g.len() > 0 {
        lemma_row_sum_zero(g.last());
        lemma_grid_sum_zero(g.drop_last());
    }
}

/// The cells of row `i` whose count is zero, in column order.
pub open spec fn zero_in_row(r: Seq<usize>, i: int) -> Seq<(usize, usize)>
    decreases r.len(),
{
    if r.len() == 0 {
        Seq::empty()
    } else {
        zero_in_row(r.drop_last(), i) + if r.last() == 0 {
            seq![(i as usize, (r.len() - 1) as usize)]
        } else {
            Seq::empty()
        }
    }
}

/// The cells of a grid whose count is zero, row by row.
pub open spec fn zero_cells(g: Seq<Seq<usize>>) -> Seq<(usize, usize)>
    decreases g.len(),
{
    if g.len() == 0 {
        Seq::empty()
    } else {
        zero_cells(g.drop_last()) + zero_in_row(g.last(), g.len() - 1)
    }
}

/// The number of cells along each side of a grid with `2^exponent` of them
/// per side (the grid is a square whose side is a power of two, so that it
/// can be split as a quadtree).
pub fn cells_per_side(exponent: u32) -> (n: u32)
    requires
        exponent < 32,
    ensures
        n == pow2(exponent as nat),
{
    let mut n: u32 = 1;
    let mut i: u32 = 0;
    proof {
        lemma_pow2(0);
        reveal(pow);
    }
    while i < exponent
        invariant
            i <= exponent < 32,
            n == pow2(i as nat),
        decreases exponent - i,
    {
        proof {
            lemma_pow2_unfold((i + 1) as nat);
            lemma_pow2_strictly_increases((i + 1) as nat, 32);
            lemma2_to64();
        }
        n = n * 2;
        i = i + 1;
    }
    n
}

/// A `side` by `side` grid of zero counts.
pub open spec fn zeros(side: nat) -> Seq<Seq<usize>> {
    Seq::new(side, |i: int| Seq::new(side, |j: int| 0usize))
}

/// The counts `g` with one more point in cell `c`.
pub open spec fn bump(g: Seq<Seq<usize>>, c: (usize, usize)) -> Seq<Seq<usize>> {
    g.update(c.0 as int, g[c.0 as int].update(c.1 as int, (g[c.0 as int][c.1 as int] + 1) as usize))
}

/// The counts `g` with one point less in cell `c`.
pub open spec fn unbump(g: Seq<Seq<usize>>, c: (usize, usize)) -> Seq<Seq<usize>> {
    g.update(c.0 as int, g[c.0 as int].update(c.1 as int, (g[c.0 as int][c.1 as int] - 1) as usize))
}

/// The counts after counting the points of cells `cs`, in order, on an empty
/// `side` by `side` grid.
pub open spec fn tally(side: nat, cs: Seq<(usize, usize)>) -> Seq<Seq<usize>>
    decreases cs.len(),
{
    if cs.len() == 0 {
        zeros(side)
    } else {
        bump(tally(side, cs.drop_last()), cs.last())
    }
}

/// How many times `c` occurs in `cs`.
pub open spec fn occ(cs: Seq<(usize, usize)>, c: (usize, usize)) -> nat
    decreases cs.len(),
{
    if cs.len() == 0 {
        0
    } else {
        occ(cs.drop_last(), c) + if cs.last() == c {
            1nat
        } else {
            0nat
        }
    }
}

/// Whether every cell of `cs` lies in a `side` by `side` grid.
pub open spec fn cells_within(cs: Seq<(usize, usize)>, side: nat) -> bool {
    forall|k: int| 0 <= k < cs.len() ==> (#[trigger] cs[k]).0 < side && cs[k].1 < side
}

/// Per-cell point counts of a square virtual grid, with their running total.
pub struct Grid {
    side: usize,
    counts: Vec<Vec<usize>>,
    total: usize,
}

impl View for Grid {
    type V = Seq<Seq<usize>>;

    closed spec fn view(&self) -> Seq<Seq<usize>> {
        self.counts@.map_values(|r: Vec<usize>| r@)
    }
}

impl Grid {
    /// Number of cells along each side of the grid.
    pub closed spec fn side_spec(&self) -> nat {
        self.side as nat
    }

    /// The grid is square, `side` by `side`, and its total is the sum of its counts.
    pub closed spec fn wf(&self) -> bool {
        &&& self.counts@.len() == self.side
        &&& forall|i: int| 0 <= i < self.side ==> (#[trigger] self.counts@[i])@.len() == self.side
        &&& self.total == grid_sum(self@)
    }

    /// A well-formed grid's counts are `side` rows of `side` counts each.
    pub proof fn lemma_shape(&self)
        requires
            self.wf(),
        ensures
            self@.len() == self.side_spec(),
            forall|i: int| 0 <= i < self.side_spec() ==> (#[trigger] self@[i]).len() == self.side_spec(),
    {
    }

    /// The count of cell `(i, j)`.
    pub open spec fn cell(&self, i: int, j: int) -> usize {
        self@[i][j]
    }

    /// Whether `(i, j)` is a cell of the grid.
    pub open spec fn in_grid(&self, i: int, j: int) -> bool {
        0 <= i < self.side_spec() && 0 <= j < self.side_spec()
    }

    /// A grid of `side` by `side` cells, all with a count of zero.
    pub fn new(side: usize) -> (g: Grid)
        ensures
            g.wf(),
            g.side_spec() == side,
            g@ == zeros(side as nat),
    {
        let mut counts: Vec<Vec<usize>> = Vec::new();
        for i in 0..side
            invariant
                counts@.len() == i,
                forall|k: int| 0 <= k < i ==> (#[trigger] counts@[k])@.len() == side,
                forall|k: int, j: int| 0 <= k < i && 0 <= j < side ==> counts@[k]@[j] == 0,
        {
            let mut row: Vec<usize> = Vec::new();
            for j in 0..side
                invariant
                    row@.len() == j,
                    forall|m: int| 0 <= m < j ==> row@[m] == 0,
            {
                row.push(0);
            }
            counts.push(row);
        }
        let g = Grid { side, counts, total: 0 };
        proof {
            lemma_grid_sum_zero(g@);
        }
        assert(g@ =~~= zeros(side as nat));
        g
    }

    /// Number of cells along each side.
    pub fn side(&self) -> (s: usize)
        ensures
            s == self.side_spec(),
    {
        self.side
    }

    /// The count of cell `(gx, gy)`.
    pub fn count(&self, gx: usize, gy: usize) -> (c: usize)
        requires
            self.wf(),
            self.in_grid(gx as int, gy as int),
        ensures
            c == self.cell(gx as int, gy as int),
    {
        self.counts[gx][gy]
    }

    /// The number of points over all cells.
    pub fn total(&self) -> (t: usize)
        requires
            self.wf(),
        ensures
            t == grid_sum(self@),
    {
        self.total
    }

    /// The cells that hold no point, row by row and column by column.
    pub fn empty_cells(&self) -> (res: Vec<(usize, usize)>)
        requires
            self.wf(),
        ensures
            res@ == zero_cells(self@),
    {
        let mut res: Vec<(usize, usize)> = Vec::new();
        let n = self.side;
        for i in 0..n
            invariant
                self.wf(),
                n == self.side,
                res@ == zero_cells(self@.take(i as int)),
        {
            let ghost before = res@;
            let ghost row = self@[i as int];
            assert(row.len() == n);
            for j in 0..n
                invariant
                    self.wf(),
                    n == self.side,
                    i < n,
                    row == self@[i as int],
                    row.len() == n,
                    res@ == before + zero_in_row(row.take(j as int), i as int),
            {
                assert(row.take(j + 1).drop_last() == row.take(j as int));
                if self.counts[i][j] == 0 {
                    res.push((i, j));
                    assert(res@ =~= before + zero_in_row(row.take(j + 1), i as int));
                } else {
                    assert(res@ =~= before + zero_in_row(row.take(j + 1), i as int));
                }
            }
            assert(row.take(n as int) == row);
            assert(self@.take(i + 1).drop_last() == self@.take(i as int));
            assert(self@.take(i + 1).last() == row);
        }
        assert(self@.take(n as int) == self@);
        res
    }

    /// Counts one point less in cell `(gx, gy)`.
    pub fn remove_point(&mut self, gx: usize, gy: usize)
        requires
            old(self).wf(),
            old(self).in_grid(gx as int, gy as int),
            old(self).cell(gx as int, gy as int) > 0,
        ensures
            final(self).wf(),
            final(self).side_spec() == old(self).side_spec(),
            final(self)@ == unbump(old(self)@, (gx, gy)),
            grid_sum(final(self)@) == grid_sum(old(self)@) - 1,
    {
        let ghost g0 = self@;
        proof {
            lemma_row_sum_update(g0[gx as int], gy as int, (g0[gx as int][gy as int] - 1) as usize);
            lemma_grid_sum_update(g0, gx as int, g0[gx as int].update(gy as int, (g0[gx as int][gy as int] - 1) as usize));
            lemma_cell_le_sum(g0, gx as int, gy as int);
        }
        let c = self.counts[gx][gy];
        self.counts[gx][gy] = c - 1;
        self.total = self.total - 1;
        assert(self@ =~= g0.update(gx as int, g0[gx as int].update(gy as int, (c - 1) as usize)));
    }

    /// Counts point number `idx`, of cell `(gx, gy)`, and records it as the
    /// sprinkled point of that number if the number was sprinkled.
    pub fn count_point<T>(&mut self, sprinkled: &mut Sprinkler<T>, idx: usize, gx: usize, gy: usize, item: T)
        requires
            old(self).wf(),
            old(sprinkled).wf(),
            old(self).in_grid(gx as int, gy as int),
            grid_sum(old(self)@) < usize::MAX,
        ensures
            final(self).wf(),
            final(self).side_spec() == old(self).side_spec(),
            final(self)@ == bump(old(self)@, (gx, gy)),
            grid_sum(final(self)@) == grid_sum(old(self)@) + 1,
            final(sprinkled).wf(),
            final(sprinkled).order() == old(sprinkled).order(),
            final(sprinkled)@ == note(old(sprinkled)@, idx, item),
            final(sprinkled)@ == if old(sprinkled)@.dom().contains(idx) {
                old(sprinkled)@.insert(idx, Some(item))
            } else {
                old(sprinkled)@
            },
    {
        self.add_point(gx, gy);
        sprinkled.record(idx, item);
    }

    /// Counts one more point in cell `(gx, gy)`.
    pub fn add_point(&mut self, gx: usize, gy: usize)
        requires
            old(self).wf(),
            old(self).in_grid(gx as int, gy as int),
            grid_sum(old(self)@) < usize::MAX,
        ensures
            final(self).wf(),
            final(self).side_spec() == old(self).side_spec(),
            final(self)@ == bump(old(self)@, (gx, gy)),
            grid_sum(final(self)@) == grid_sum(old(self)@) + 1,
    {
        let ghost g0 = self@;
        proof {
            lemma_row_sum_update(g0[gx as int], gy as int, (g0[gx as int][gy as int] + 1) as usize);
            lemma_grid_sum_update(g0, gx as int, g0[gx as int].update(gy as int, (g0[gx as int][gy as int] + 1) as usize));
            lemma_cell_le_sum(g0, gx as int, gy as int);
        }
        let c = self.counts[gx][gy];
        self.counts[gx][gy] = c + 1;
        self.total = self.total + 1;
        assert(self@ =~= g0.update(gx as int, g0[gx as int].update(gy as int, (c + 1) as usize)));
    }
}

/// Sums of counts are never negative.
pub proof fn lemma_row_sum_nonneg(r: Seq<usize>)
    ensures
        row_sum(r) >= 0,
    decreases r.len(),
{
    if r.len() > 0 {
        lemma_row_sum_nonneg(r.drop_last());
    }
}

/// Sums of row sums are never negative.
pub proof fn lemma_grid_sum_nonneg(g: Seq<Seq<usize>>)
    ensures
        grid_sum(g) >= 0,
    decreases g.len(),
{
    if g.len() > 0 {
        lemma_row_sum_nonneg(g.last());
        lemma_grid_sum_nonneg(g.drop_last());
    }
}

/// One count never exceeds the sum of the grid.
pub proof fn lemma_cell_le_sum(g: Seq<Seq<usize>>, i: int, j: int)
    requires
        0 <= i < g.len(),
        0 <= j < g[i].len(),
    ensures
        g[i][j] <= row_sum(g[i]) <= grid_sum(g),
{
    lemma_row_sum_update(g[i], j, 0);
    lemma_row_sum_nonneg(g[i].update(j, 0));
    lemma_grid_sum_update(g, i, Seq::empty());
    lemma_grid_sum_nonneg(g.update(i, Seq::empty()));
}

/// A cell occurs at most as many times as there are cells.
pub proof fn lemma_occ_le_len(cs: Seq<(usize, usize)>, c: (usize, usize))
    ensures
        occ(cs, c) <= cs.len(),
    decreases cs.len(),
{
    if cs.len() > 0 {
        lemma_occ_le_len(cs.drop_last(), c);
    }
}

/// Counting the points of `cs`, one by one, on an empty grid leaves in each
/// cell the number of points that fell in it, and in all cells together the
/// number of points.
pub proof fn lemma_tally_counts(side: nat, cs: Seq<(usize, usize)>)
    requires
        side <= usize::MAX,
        cells_within(cs, side),
        cs.len() <= usize::MAX,
    ensures
        tally(side, cs).len() == side,
        forall|i: int| 0 <= i < side ==> (#[trigger] tally(side, cs)[i]).len() == side,
        forall|i: int, j: int|
            0 <= i < side && 0 <= j < side ==> tally(side, cs)[i][j] == occ(cs, (i as usize, j as usize)),
        grid_sum(tally(side, cs)) == cs.len(),
    decreases cs.len(),
{
    if cs.len() == 0 {
        lemma_grid_sum_zero(zeros(side));
    } else {
        let pre = cs.drop_last();
        let c = cs.last();
        assert(cells_within(pre, side)) by {
            assert forall|k: int| 0 <= k < pre.len() implies (#[trigger] pre[k]).0 < side && pre[k].1 < side by {
                assert(pre[k] == cs[k]);
            }
        }
        assert(c == cs[cs.len() - 1]);
        lemma_tally_counts(side, pre);
        let g = tally(side, pre);
        lemma_occ_le_len(pre, c);
        let i0 = c.0 as int;
        let j0 = c.1 as int;
        assert(g[i0][j0] == occ(pre, (i0 as usize, j0 as usize)));
        let newrow = g[i0].update(j0, (g[i0][j0] + 1) as usize);
        lemma_row_sum_update(g[i0], j0, (g[i0][j0] + 1) as usize);
        lemma_grid_sum_update(g, i0, newrow);
        let t = tally(side, cs);
        assert(t == g.update(i0, newrow));
        assert forall|i: int, j: int| 0 <= i < side && 0 <= j < side implies t[i][j] == occ(
            cs,
            (i as usize, j as usize),
        ) by {
            assert(occ(cs, (i as usize, j as usize)) == occ(pre, (i as usize, j as usize)) + if c == (
            i as usize, j as usize) {
                1nat
            } else {
                0nat
            });
            if i == i0 {
                assert(t[i] == newrow);
                if j == j0 {
                    assert(c == (i as usize, j as usize));
                } else {
                    assert(c != (i as usize, j as usize));
                }
            } else {
                assert(t[i] == g[i]);
                assert(c != (i as usize, j as usize));
            }
        }
    }
}

/// Whether `(a, b)` comes before `(c, d)` row by row, then column by column.
pub open spec fn cell_before(x: (usize, usize), y: (usize, usize)) -> bool {
    x.0 < y.0 || (x.0 == y.0 && x.1 < y.1)
}

/// The zero cells of one row: each lies in that row, has count zero, every
/// zero of the row is listed, and columns increase.
proof fn lemma_zero_in_row(r: Seq<usize>, i: int)
    requires
        0 <= i <= usize::MAX,
        r.len() <= usize::MAX + 1,
    ensures
        ({
            let z = zero_in_row(r, i);
            &&& forall|k: int|
                0 <= k < z.len() ==> (#[trigger] z[k]).0 == i && z[k].1 < r.len() && r[z[k].1 as int] == 0
            &&& forall|j: int| 0 <= j < r.len() && r[j] == 0 ==> z.contains((i as usize, j as usize))
            &&& forall|k: int, l: int| 0 <= k < l < z.len() ==> #[trigger] z[k].1 < #[trigger] z[l].1
        }),
    decreases r.len(),
{
    if r.len() > 0 {
        let pre = r.drop_last();
        lemma_zero_in_row(pre, i);
        let z0 = zero_in_row(pre, i);
        let z = zero_in_row(r, i);
        let last = (r.len() - 1) as int;
        if r.last() == 0 {
            assert(z == z0.push((i as usize, last as usize)));
        } else {
            assert(z == z0);
        }
        assert forall|k: int| 0 <= k < z.len() implies (#[trigger] z[k]).0 == i && z[k].1 < r.len() && r[z[k].1
            as int] == 0 by {
            if k < z0.len() {
                assert(z[k] == z0[k]);
            }
        }
        assert forall|j: int| 0 <= j < r.len() && r[j] == 0 implies z.contains((i as usize, j as usize)) by {
            if j < last {
                assert(pre[j] == r[j]);
                let k = choose|k: int| 0 <= k < z0.len() && z0[k] == (i as usize, j as usize);
                assert(z[k] == z0[k]);
            } else {
                assert(z[z.len() - 1] == (i as usize, j as usize));
            }
        }
    }
}

/// Whether every row of `g` has `side` entries.
pub open spec fn rows_of_len(g: Seq<Seq<usize>>, side: nat) -> bool {
    forall|i: int| 0 <= i < g.len() ==> (#[trigger] g[i]).len() == side
}

/// The zero cells of the first rows of a grid.
proof fn lemma_zero_cells_rows(g: Seq<Seq<usize>>, side: nat)
    requires
        rows_of_len(g, side),
        side <= usize::MAX,
        g.len() <= usize::MAX,
    ensures
        ({
            let z = zero_cells(g);
            &&& forall|k: int|
                0 <= k < z.len() ==> (#[trigger] z[k]).0 < g.len() && z[k].1 < side && g[z[k].0 as int][z[k].1 as int]
                    == 0
            &&& forall|i: int, j: int|
                0 <= i < g.len() && 0 <= j < side && g[i][j] == 0 ==> z.contains((i as usize, j as usize))
            &&& forall|k: int, l: int| 0 <= k < l < z.len() ==> cell_before(#[trigger] z[k], #[trigger] z[l])
        }),
    decreases g.len(),
{
    if g.len() > 0 {
        let pre = g.drop_last();
        let n = g.len() - 1;
        assert(rows_of_len(pre, side)) by {
            assert forall|i: int| 0 <= i < pre.len() implies (#[trigger] pre[i]).len() == side by {
                assert(pre[i] == g[i]);
            }
        }
        lemma_zero_cells_rows(pre, side);
        assert(g.last() == g[n]);
        lemma_zero_in_row(g.last(), n);
        let z0 = zero_cells(pre);
        let zr = zero_in_row(g.last(), n);
        let z = zero_cells(g);
        assert(z == z0 + zr);
        assert forall|k: int| 0 <= k < z.len() implies (#[trigger] z[k]).0 < g.len() && z[k].1 < side && g[z[k].0
            as int][z[k].1 as int] == 0 by {
            if k < z0.len() {
                assert(z[k] == z0[k]);
                assert(g[z[k].0 as int] == pre[z[k].0 as int]);
            } else {
                assert(z[k] == zr[k - z0.len()]);
            }
        }
        assert forall|i: int, j: int| 0 <= i < g.len() && 0 <= j < side && g[i][j] == 0 implies z.contains(
            (i as usize, j as usize),
        ) by {
            if i < n {
                assert(pre[i] == g[i]);
                let k = choose|k: int| 0 <= k < z0.len() && z0[k] == (i as usize, j as usize);
                assert(z[k] == z0[k]);
            } else {
                let k = choose|k: int| 0 <= k < zr.len() && zr[k] == (i as usize, j as usize);
                assert(z[k + z0.len()] == zr[k]);
            }
        }
        assert forall|k: int, l: int| 0 <= k < l < z.len() implies cell_before(#[trigger] z[k], #[trigger] z[l]) by {
            if l < z0.len() {
                assert(z[k] == z0[k]);
                assert(z[l] == z0[l]);
            } else if k < z0.len() {
                assert(z[k] == z0[k]);
                assert(z[l] == zr[l - z0.len()]);
            } else {
                assert(z[k] == zr[k - z0.len()]);
                assert(z[l] == zr[l - z0.len()]);
            }
        }
    }
}

/// The cells listed as empty are exactly the cells of count zero, each once,
/// row by row and, within a row, column by column.
pub proof fn lemma_empty_cells(g: Seq<Seq<usize>>, side: nat)
    requires
        g.len() == side,
        rows_of_len(g, side),
        side <= usize::MAX,
    ensures
        ({
            let z = zero_cells(g);
            &&& forall|k: int|
                0 <= k < z.len() ==> (#[trigger] z[k]).0 < side && z[k].1 < side && g[z[k].0 as int][z[k].1 as int] == 0
            &&& forall|i: int, j: int|
                0 <= i < side && 0 <= j < side && g[i][j] == 0 ==> z.contains((i as usize, j as usize))
            &&& forall|k: int, l: int| 0 <= k < l < z.len() ==> cell_before(#[trigger] z[k], #[trigger] z[l])
        }),
{
    lemma_zero_cells_rows(g, side);
}

/// The sprinkled points once point number `idx`, carrying `item`, is counted:
/// the point is kept if its number is sprinkled.
pub open spec fn note<T>(m: Map<usize, Option<T>>, idx: usize, item: T) -> Map<usize, Option<T>> {
    if m.dom().contains(idx) {
        m.insert(idx, Some(item))
    } else {
        m
    }
}

/// Counting point number `idx` keeps the same sprinkled numbers, records
/// `item` under exactly that number when it is sprinkled, and leaves what is
/// recorded under every other number as it was.
pub proof fn lemma_note<T>(m: Map<usize, Option<T>>, idx: usize, item: T)
    ensures
        note(m, idx, item).dom() == m.dom(),
        m.dom().contains(idx) ==> note(m, idx, item)[idx] == Some(item),
        forall|k: usize| k != idx && #[trigger] m.dom().contains(k) ==> note(m, idx, item)[k] == m[k],
{
    if m.dom().contains(idx) {
        assert(m.dom().insert(idx) =~= m.dom());
    }
}

/// Counts and sprinkled points after counting the points `ps`, one by one,
/// each given by its number, its cell and its item, from counts `g` and
/// sprinkled points `m` (as `Grid::count_point` does).
pub open spec fn count_run<T>(
    g: Seq<Seq<usize>>,
    m: Map<usize, Option<T>>,
    ps: Seq<(usize, (usize, usize), T)>,
) -> (Seq<Seq<usize>>, Map<usize, Option<T>>)
    decreases ps.len(),
{
    if ps.len() == 0 {
        (g, m)
    } else {
        let r = count_run(g, m, ps.drop_last());
        let p = ps.last();
        (bump(r.0, p.1), note(r.1, p.0, p.2))
    }
}

/// The cells of counted points.
pub open spec fn counted_cells<T>(ps: Seq<(usize, (usize, usize), T)>) -> Seq<(usize, usize)> {
    ps.map_values(|p: (usize, (usize, usize), T)| p.1)
}

/// The counts of the first pass never depend on which points are sprinkled:
/// counting the same points from an empty grid with any two sprinklings gives
/// the same counts, those of the points' cells alone.
pub proof fn lemma_counts_ignore_sprinkled<T>(
    side: nat,
    m1: Map<usize, Option<T>>,
    m2: Map<usize, Option<T>>,
    ps: Seq<(usize, (usize, usize), T)>,
)
    ensures
        count_run(zeros(side), m1, ps).0 == tally(side, counted_cells(ps)),
        count_run(zeros(side), m2, ps).0 == tally(side, counted_cells(ps)),
    decreases ps.len(),
{
    if ps.len() > 0 {
        lemma_counts_ignore_sprinkled(side, m1, m2, ps.drop_last());
        assert(counted_cells(ps).drop_last() =~= counted_cells(ps.drop_last()));
        assert(counted_cells(ps).last() == ps.last().1);
    }
}

} // verus!
