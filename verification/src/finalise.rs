use crate::grid::{cells_within, grid_sum, occ, tally, unbump, zeros, Grid};
use crate::sprinkle::Sprinkler;
use vstd::prelude::*;

verus! {

/// The contents of an optional item as a sequence of zero or one items.
pub open spec fn opt_seq<T>(item: Option<T>) -> Seq<T> {
    match item {
        Some(x) => seq![x],
        None => Seq::empty(),
    }
}

/// A `side` by `side` grid of empty buffers.
pub open spec fn empty_buffers<T>(side: nat) -> Seq<Seq<Seq<T>>> {
    Seq::new(side, |i: int| Seq::new(side, |j: int| Seq::<T>::empty()))
}

/// The items of cell `c` once `item` is added to its buffer.
pub open spec fn held<T>(b: Seq<Seq<Seq<T>>>, c: (usize, usize), item: Option<T>) -> Seq<T> {
    b[c.0 as int][c.1 as int] + opt_seq(item)
}

/// Whether one more point of cell `c` completes it: it is the last one pending.
pub open spec fn closes(p: Seq<Seq<usize>>, c: (usize, usize)) -> bool {
    p[c.0 as int][c.1 as int] == 1
}

/// The buffers after a point of cell `c`, carrying `item`, comes in: the cell's
/// buffer is emptied if the point completes the cell, and gets `item` otherwise.
pub open spec fn after_buffers<T>(
    p: Seq<Seq<usize>>,
    b: Seq<Seq<Seq<T>>>,
    c: (usize, usize),
    item: Option<T>,
) -> Seq<Seq<Seq<T>>> {
    let i = c.0 as int;
    let j = c.1 as int;
    if closes(p, c) {
        b.update(i, b[i].update(j, Seq::empty()))
    } else {
        b.update(i, b[i].update(j, held(b, c, item)))
    }
}

/// What is handed out when a point of cell `c`, carrying `item`, comes in:
/// all the items of the cell if the point completes it, nothing otherwise.
pub open spec fn emitted<T>(
    p: Seq<Seq<usize>>,
    b: Seq<Seq<Seq<T>>>,
    c: (usize, usize),
    item: Option<T>,
) -> Option<Seq<T>> {
    if closes(p, c) {
        Some(held(b, c, item))
    } else {
        None
    }
}

/// The cells of a sequence of points, each given with its cell and its item.
pub open spec fn cells_of<T>(es: Seq<((usize, usize), Option<T>)>) -> Seq<(usize, usize)> {
    es.map_values(|e: ((usize, usize), Option<T>)| e.0)
}

/// The items carried by the points of cell `c`, in order.
pub open spec fn kept_of<T>(es: Seq<((usize, usize), Option<T>)>, c: (usize, usize)) -> Seq<T>
    decreases es.len(),
{
    if es.len() == 0 {
        Seq::empty()
    } else {
        kept_of(es.drop_last(), c) + if es.last().0 == c {
            opt_seq(es.last().1)
        } else {
            Seq::empty()
        }
    }
}

/// Pending counts, buffers, and what each point handed out, after the points
/// `es` come in, one by one, starting from pending counts `p` and buffers `b`.
pub open spec fn run<T>(
    p: Seq<Seq<usize>>,
    b: Seq<Seq<Seq<T>>>,
    es: Seq<((usize, usize), Option<T>)>,
) -> (Seq<Seq<usize>>, Seq<Seq<Seq<T>>>, Seq<Option<Seq<T>>>)
    decreases es.len(),
{
    if es.len() == 0 {
        (p, b, Seq::empty())
    } else {
        let r = run(p, b, es.drop_last());
        let e = es.last();
        (unbump(r.0, e.0), after_buffers(r.0, r.1, e.0, e.1), r.2.push(emitted(r.0, r.1, e.0, e.1)))
    }
}

/// The second pass over the points: each cell keeps the count of its points
/// not seen yet, and buffers the points seen so far; when the count of a cell
/// reaches zero the cell is complete and its buffered points are handed out.
pub struct Finaliser<T> {
    grid: Grid,
    buffers: Vec<Vec<Vec<T>>>,
}

impl<T> Finaliser<T> {
    /// Points still to come, per cell.
    pub closed spec fn pending(&self) -> Seq<Seq<usize>> {
        self.grid@
    }

    /// Points held back, per cell, in the order they came.
    pub closed spec fn buffered(&self) -> Seq<Seq<Seq<T>>> {
        self.buffers@.map_values(|r: Vec<Vec<T>>| r@.map_values(|b: Vec<T>| b@))
    }

    /// Number of cells along each side.
    pub closed spec fn side_spec(&self) -> nat {
        self.grid.side_spec()
    }

    /// Whether `(i, j)` is a cell of the grid.
    pub open spec fn in_grid(&self, i: int, j: int) -> bool {
        0 <= i < self.side_spec() && 0 <= j < self.side_spec()
    }

    /// The counts form a well-formed grid and there is one buffer per cell.
    pub closed spec fn wf(&self) -> bool {
        &&& self.grid.wf()
        &&& self.buffers@.len() == self.grid.side_spec()
        &&& forall|i: int|
            0 <= i < self.buffers@.len() ==> (#[trigger] self.buffers@[i])@.len() == self.grid.side_spec()
    }

    /// Starts the second pass from the counts of the first: every cell
    /// expects as many points as were counted in it, and holds none yet.
    pub fn new(grid: Grid) -> (f: Finaliser<T>)
        requires
            grid.wf(),
        ensures
            f.wf(),
            f.side_spec() == grid.side_spec(),
            f.pending() == grid@,
            f.buffered() == empty_buffers::<T>(grid.side_spec()),
    {
        let n = grid.side();
        let mut buffers: Vec<Vec<Vec<T>>> = Vec::new();
        for i in 0..n
            invariant
                buffers@.len() == i,
                forall|k: int| 0 <= k < i ==> (#[trigger] buffers@[k])@.len() == n,
                forall|k: int, j: int| 0 <= k < i && 0 <= j < n ==> buffers@[k]@[j]@.len() == 0,
        {
            let mut row: Vec<Vec<T>> = Vec::new();
            for j in 0..n
                invariant
                    row@.len() == j,
                    forall|m: int| 0 <= m < j ==> row@[m]@.len() == 0,
            {
                row.push(Vec::new());
            }
            buffers.push(row);
        }
        let f = Finaliser { grid, buffers };
        assert(f.buffered() =~~= empty_buffers::<T>(grid.side_spec()));
        f
    }

    /// The counts of the points still to come.
    pub fn grid(&self) -> (g: &Grid)
        requires
            self.wf(),
        ensures
            g.wf(),
            g@ == self.pending(),
            g.side_spec() == self.side_spec(),
    {
        &self.grid
    }

    /// Takes in one point of cell `(gx, gy)`: one point less is pending there,
    /// and `item`, if any, is held back. When no point of the cell is pending
    /// any more, the cell is complete: all its held-back points are returned,
    /// in the order they came, and its buffer is emptied.
    pub fn process(&mut self, gx: usize, gy: usize, item: Option<T>) -> (done: Option<Vec<T>>)
        requires
            old(self).wf(),
            old(self).in_grid(gx as int, gy as int),
            old(self).pending()[gx as int][gy as int] > 0,
        ensures
            final(self).wf(),
            final(self).side_spec() == old(self).side_spec(),
            final(self).pending() == unbump(old(self).pending(), (gx, gy)),
            grid_sum(final(self).pending()) == grid_sum(old(self).pending()) - 1,
            final(self).buffered() == after_buffers(old(self).pending(), old(self).buffered(), (gx, gy), item),
            done is Some == closes(old(self).pending(), (gx, gy)),
            done matches Some(v) ==> v@ == held(old(self).buffered(), (gx, gy), item),
    {
        let ghost b0 = self.buffered();
        let ghost cell0 = self.buffers@[gx as int]@[gy as int]@;
        proof {
            self.grid.lemma_shape();
        }
        self.grid.remove_point(gx, gy);
        match item {
            Some(x) => {
                self.buffers[gx][gy].push(x);
                assert(self.buffers@[gx as int]@[gy as int]@ == cell0.push(x));
            },
            None => {},
        }
        let ghost held = b0[gx as int][gy as int] + opt_seq(item);
        assert(self.buffers@[gx as int]@[gy as int]@ =~= held);
        if self.grid.count(gx, gy) == 0 {
            let ghost full = self.buffers@[gx as int]@[gy as int];
            let mut out: Vec<T> = Vec::new();
            std::mem::swap(&mut out, &mut self.buffers[gx][gy]);
            assert(out == full);
            assert(self.buffered() =~~= b0.update(gx as int, b0[gx as int].update(gy as int, Seq::empty())));
            Some(out)
        } else {
            assert(self.buffered() =~~= b0.update(gx as int, b0[gx as int].update(gy as int, held)));
            None
        }
    }

    /// Takes in point number `idx`, of cell `(gx, gy)`: as `process`, where
    /// the point is held back unless it was sprinkled (it was sent already).
    pub fn process_point(
        &mut self,
        sprinkled: &Sprinkler<T>,
        idx: usize,
        gx: usize,
        gy: usize,
        item: T,
    ) -> (done: Option<Vec<T>>)
        requires
            old(self).wf(),
            sprinkled.wf(),
            old(self).in_grid(gx as int, gy as int),
            old(self).pending()[gx as int][gy as int] > 0,
        ensures
            final(self).wf(),
            final(self).side_spec() == old(self).side_spec(),
            ({
                let kept = if sprinkled@.dom().contains(idx) { None } else { Some(item) };
                &&& final(self).pending() == unbump(old(self).pending(), (gx, gy))
                &&& grid_sum(final(self).pending()) == grid_sum(old(self).pending()) - 1
                &&& final(self).buffered() == after_buffers(old(self).pending(), old(self).buffered(), (gx, gy), kept)
                &&& done is Some == closes(old(self).pending(), (gx, gy))
                &&& done matches Some(v) ==> v@ == held(old(self).buffered(), (gx, gy), kept)
            }),
    {
        let kept = if sprinkled.contains(idx) { None } else { Some(item) };
        self.process(gx, gy, kept)
    }
}

/// Dropping the last point of a sequence drops the last of its cells.
proof fn lemma_cells_of_drop_last<T>(es: Seq<((usize, usize), Option<T>)>)
    requires
        es.len() > 0,
    ensures
        cells_of(es.drop_last()) == cells_of(es).drop_last(),
        cells_of(es).last() == es.last().0,
        cells_of(es).len() == es.len(),
{
    assert(cells_of(es.drop_last()) =~= cells_of(es).drop_last());
}

/// Whether `s` is a `side` by `side` grid.
pub open spec fn square<A>(s: Seq<Seq<A>>, side: nat) -> bool {
    &&& s.len() == side
    &&& forall|i: int| 0 <= i < side ==> (#[trigger] s[i]).len() == side
}

/// What the finaliser's state is after a prefix of the second pass, given
/// the counts `cs` of the first pass.
pub open spec fn prefix_state<T>(
    side: nat,
    cs: Seq<(usize, usize)>,
    es: Seq<((usize, usize), Option<T>)>,
) -> bool {
    let r = run(tally(side, cs), empty_buffers::<T>(side), es);
    &&& square(r.0, side)
    &&& square(r.1, side)
    &&& forall|i: int, j: int|
        0 <= i < side && 0 <= j < side ==> {
            let c = (i as usize, j as usize);
            &&& (#[trigger] r.0[i][j]) == occ(cs, c) - occ(cells_of(es), c)
            &&& r.1[i][j] == if r.0[i][j] > 0 {
                kept_of(es, c)
            } else {
                Seq::<T>::empty()
            }
        }
    &&& r.2.len() == es.len()
    &&& forall|k: int|
        0 <= k < es.len() ==> {
            let c = es[k].0;
            &&& (#[trigger] r.2[k]) == if occ(cells_of(es.take(k + 1)), c) == occ(cs, c) {
                Some(kept_of(es.take(k + 1), c))
            } else {
                None::<Seq<T>>
            }
            &&& run(tally(side, cs), empty_buffers::<T>(side), es.take(k)).0[c.0 as int][c.1 as int] > 0
        }
}

/// The state invariant of the second pass holds after any prefix of points
/// whose cells occur no more often than they were counted.
proof fn lemma_prefix_state<T>(side: nat, cs: Seq<(usize, usize)>, es: Seq<((usize, usize), Option<T>)>)
    requires
        side <= usize::MAX,
        cells_within(cs, side),
        cs.len() <= usize::MAX,
        forall|c: (usize, usize)| occ(cells_of(es), c) <= #[trigger] occ(cs, c),
    ensures
        prefix_state(side, cs, es),
    decreases es.len(),
{
    crate::grid::lemma_tally_counts(side, cs);
    if es.len() == 0 {
        let r = run(tally(side, cs), empty_buffers::<T>(side), es);
        assert forall|i: int, j: int| 0 <= i < side && 0 <= j < side implies r.1[i][j] == Seq::<T>::empty() by {}
    } else {
        let pre = es.drop_last();
        let e = es.last();
        let c = e.0;
        lemma_cells_of_drop_last(es);
        assert forall|d: (usize, usize)| occ(cells_of(pre), d) <= #[trigger] occ(cs, d) by {
            assert(occ(cells_of(es), d) == occ(cells_of(pre), d) + if c == d { 1nat } else { 0nat });
        }
        lemma_prefix_state(side, cs, pre);
        let t = tally(side, cs);
        let e0 = empty_buffers::<T>(side);
        let r1 = run(t, e0, pre);
        let r = run(t, e0, es);
        assert(occ(cells_of(es), c) == occ(cells_of(pre), c) + 1);
        assert(occ(cs, c) >= 1);
        // the cell of the new point lies in the grid, since it was counted
        assert(c.0 < side && c.1 < side) by {
            if !(c.0 < side && c.1 < side) {
                lemma_occ_outside(cs, side, c);
            }
        }
        let i0 = c.0 as int;
        let j0 = c.1 as int;
        assert(r1.0[i0][j0] == occ(cs, c) - occ(cells_of(pre), c));
        assert(r1.0[i0][j0] > 0);
        assert(r.0 == unbump(r1.0, c));
        assert(r.1 == after_buffers(r1.0, r1.1, c, e.1));
        assert(r.2 == r1.2.push(emitted(r1.0, r1.1, c, e.1)));
        assert(square(r.0, side));
        assert(square(r.1, side));
        assert forall|i: int, j: int| 0 <= i < side && 0 <= j < side implies {
            let d = (i as usize, j as usize);
            &&& (#[trigger] r.0[i][j]) == occ(cs, d) - occ(cells_of(es), d)
            &&& r.1[i][j] == if r.0[i][j] > 0 {
                kept_of(es, d)
            } else {
                Seq::<T>::empty()
            }
        } by {
            let d = (i as usize, j as usize);
            assert(occ(cells_of(es), d) == occ(cells_of(pre), d) + if c == d { 1nat } else { 0nat });
            assert(kept_of(es, d) == kept_of(pre, d) + if e.0 == d { opt_seq(e.1) } else { Seq::<T>::empty() });
            if i == i0 && j == j0 {
                assert(c == d);
            } else {
                assert(c != d);
                assert(kept_of(es, d) =~= kept_of(pre, d));
            }
        }
        assert forall|k: int| 0 <= k < es.len() implies {
            let d = es[k].0;
            &&& (#[trigger] r.2[k]) == if occ(cells_of(es.take(k + 1)), d) == occ(cs, d) {
                Some(kept_of(es.take(k + 1), d))
            } else {
                None::<Seq<T>>
            }
            &&& run(t, e0, es.take(k)).0[d.0 as int][d.1 as int] > 0
        } by {
            if k < es.len() - 1 {
                assert(es.take(k + 1) == pre.take(k + 1));
                assert(es.take(k) == pre.take(k));
                assert(es[k] == pre[k]);
            } else {
                assert(es.take(k + 1) == es);
                assert(es.take(k) == pre);
                assert(kept_of(es, c) == kept_of(pre, c) + opt_seq(e.1));
            }
        }
    }
}

/// A cell outside the grid is never counted.
proof fn lemma_occ_outside(cs: Seq<(usize, usize)>, side: nat, c: (usize, usize))
    requires
        cells_within(cs, side),
        !(c.0 < side && c.1 < side),
    ensures
        occ(cs, c) == 0,
    decreases cs.len(),
{
    if cs.len() > 0 {
        assert(cs.last() == cs[cs.len() - 1]);
        assert(cells_within(cs.drop_last(), side)) by {
            assert forall|k: int| 0 <= k < cs.drop_last().len() implies (#[trigger] cs.drop_last()[k]).0 < side
                && cs.drop_last()[k].1 < side by {
                assert(cs.drop_last()[k] == cs[k]);
            }
        }
        lemma_occ_outside(cs.drop_last(), side, c);
    }
}

/// Occurrences add up over a concatenation.
proof fn lemma_occ_append(a: Seq<(usize, usize)>, b: Seq<(usize, usize)>, c: (usize, usize))
    ensures
        occ(a + b, c) == occ(a, c) + occ(b, c),
    decreases b.len(),
{
    if b.len() > 0 {
        assert((a + b).drop_last() == a + b.drop_last());
        assert((a + b).last() == b.last());
        lemma_occ_append(a, b.drop_last(), c);
    } else {
        assert(a + b == a);
    }
}

/// A cell does not occur exactly when no entry is that cell.
proof fn lemma_occ_zero(s: Seq<(usize, usize)>, c: (usize, usize))
    ensures
        occ(s, c) == 0 <==> forall|m: int| 0 <= m < s.len() ==> s[m] != c,
    decreases s.len(),
{
    if s.len() > 0 {
        lemma_occ_zero(s.drop_last(), c);
        assert forall|m: int| 0 <= m < s.len() - 1 implies s.drop_last()[m] == s[m] by {}
        assert(s.last() == s[s.len() - 1]);
    }
}

/// The items of a cell with no point after position `k` are already all there
/// after the first `k + 1` points.
proof fn lemma_kept_take<T>(es: Seq<((usize, usize), Option<T>)>, k: int, c: (usize, usize))
    requires
        0 <= k < es.len(),
        forall|m: int| k < m < es.len() ==> es[m].0 != c,
    ensures
        kept_of(es.take(k + 1), c) == kept_of(es, c),
    decreases es.len(),
{
    if es.len() == k + 1 {
        assert(es.take(k + 1) == es);
    } else {
        let pre = es.drop_last();
        assert(pre.take(k + 1) == es.take(k + 1));
        assert(es.last().0 != c);
        assert(kept_of(es, c) =~= kept_of(pre, c));
        lemma_kept_take(pre, k, c);
    }
}

/// The second pass completes every cell exactly once. After the first pass
/// counted the points of cells `cs`, feed the finaliser the same points again,
/// in any order (as `es`, each with its cell and the item it carries, if any):
/// every point finds its cell still pending, a point completes its cell
/// exactly when no later point falls in that cell, the cell then hands out
/// the items of all its points in the order they came, and at the end no
/// point is pending and no item is held back.
pub proof fn lemma_cells_complete_on_last_point<T>(
    side: nat,
    cs: Seq<(usize, usize)>,
    es: Seq<((usize, usize), Option<T>)>,
)
    requires
        side <= usize::MAX,
        cells_within(cs, side),
        cs.len() <= usize::MAX,
        forall|c: (usize, usize)| occ(cells_of(es), c) == #[trigger] occ(cs, c),
    ensures
        ({
            let t = tally(side, cs);
            let e0 = empty_buffers::<T>(side);
            let r = run(t, e0, es);
            &&& forall|k: int|
                0 <= k < es.len() ==> (#[trigger] run(t, e0, es.take(k))).0[es[k].0.0 as int][es[k].0.1 as int] > 0
            &&& r.2.len() == es.len()
            &&& forall|k: int|
                0 <= k < es.len() ==> ((#[trigger] r.2[k]) is Some <==> (forall|m: int|
                    k < m < es.len() ==> es[m].0 != es[k].0))
            &&& forall|k: int| 0 <= k < es.len() ==> ((#[trigger] r.2[k]) is Some ==> r.2[k]->0 == kept_of(es, es[k].0))
            &&& r.0 == zeros(side)
            &&& r.1 == empty_buffers::<T>(side)
        }),
{
    lemma_prefix_state(side, cs, es);
    let t = tally(side, cs);
    let e0 = empty_buffers::<T>(side);
    let r = run(t, e0, es);
    assert forall|k: int| 0 <= k < es.len() implies ((#[trigger] r.2[k]) is Some <==> (forall|m: int|
        k < m < es.len() ==> es[m].0 != es[k].0)) && (r.2[k] is Some ==> r.2[k]->0 == kept_of(es, es[k].0))
        && run(t, e0, es.take(k)).0[es[k].0.0 as int][es[k].0.1 as int] > 0 by {
        let c = es[k].0;
        let all = cells_of(es);
        assert(cells_of(es.take(k + 1)) =~= all.take(k + 1));
        assert(all =~= all.take(k + 1) + all.skip(k + 1));
        lemma_occ_append(all.take(k + 1), all.skip(k + 1), c);
        lemma_occ_zero(all.skip(k + 1), c);
        assert(occ(all, c) == occ(cs, c));
        if forall|m: int| k < m < es.len() ==> es[m].0 != c {
            let rest = all.skip(k + 1);
            assert forall|m: int| 0 <= m < rest.len() implies #[trigger] rest[m] != c by {
                assert(rest[m] == es[m + k + 1].0);
            }
            lemma_kept_take(es, k, c);
        } else {
            let m = choose|m: int| k < m < es.len() && es[m].0 == c;
            assert(all.skip(k + 1)[m - k - 1] == c);
        }
    }
    assert forall|k: int| 0 <= k < es.len() implies (#[trigger] run(t, e0, es.take(k))).0[es[k].0.0 as int][es[k].0.1 as int] > 0 by {
        // the state after the first k points, from the invariant on all of `es`
        assert(r.2[k] is Some ==> r.2[k]->0 == kept_of(es, es[k].0));
    }
    assert(r.0 =~~= zeros(side)) by {
        assert forall|i: int, j: int| 0 <= i < side && 0 <= j < side implies r.0[i][j] == 0 by {
            assert(occ(cells_of(es), (i as usize, j as usize)) == occ(cs, (i as usize, j as usize)));
        }
    }
    assert(r.1 =~~= empty_buffers::<T>(side)) by {
        assert forall|i: int, j: int| 0 <= i < side && 0 <= j < side implies r.1[i][j] == Seq::<T>::empty() by {
            assert(occ(cells_of(es), (i as usize, j as usize)) == occ(cs, (i as usize, j as usize)));
            assert(r.0[i][j] == 0);
        }
    }
}

} // verus!
