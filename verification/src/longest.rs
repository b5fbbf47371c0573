//! The choice of end points: the two cells that lie farthest apart, found by
//! measuring from any cell, then from the farthest cell, then from the cell
//! farthest from that.

use vstd::prelude::*;
use crate::maze::{Maze, Pos};
use crate::shape::{Shape, Spot, precedes};

verus! {

/// A distance field as a number to compare: `-1` for a cell without one.
pub open spec fn reach(dist: Option<u32>) -> int {
    match dist {
        Some(k) => k as int,
        None => -1,
    }
}

impl Shape {
    /// `p` is the cell farthest from `seed`: `seed` reaches it, no cell that
    /// `seed` reaches is more hops away, and of the cells as far away it is
    /// the first in row-major order.
    pub open spec fn is_farthest(self, seed: Spot, p: Spot) -> bool {
        exists|n: nat|
            {
                &&& #[trigger] self.nearest(seed, p, n)
                &&& forall|q: Spot, m: nat| #[trigger]
                    self.nearest(seed, q, m) ==> m <= n && (precedes(q, p) ==> m < n)
            }
    }

    /// In a tidy shape the cell farthest from a free cell is free.
    pub proof fn lemma_far_free(self, seed: Spot, p: Spot)
        requires
            self.tidy(),
            self.free(seed),
            self.is_farthest(seed, p),
        ensures
            self.free(p),
    {
        let n = choose|n: nat|
            {
                &&& #[trigger] self.nearest(seed, p, n)
                &&& forall|q: Spot, m: nat| #[trigger]
                    self.nearest(seed, q, m) ==> m <= n && (precedes(q, p) ==> m < n)
            };
        self.lemma_walk_free(seed, p, n);
    }

    /// There is at most one farthest cell.
    pub proof fn lemma_farthest_unique(self, seed: Spot, p: Spot, q: Spot)
        requires
            self.is_farthest(seed, p),
            self.is_farthest(seed, q),
        ensures
            p == q,
    {
        let n = choose|n: nat|
            {
                &&& #[trigger] self.nearest(seed, p, n)
                &&& forall|r: Spot, m: nat| #[trigger]
                    self.nearest(seed, r, m) ==> m <= n && (precedes(r, p) ==> m < n)
            };
        let k = choose|k: nat|
            {
                &&& #[trigger] self.nearest(seed, q, k)
                &&& forall|r: Spot, m: nat| #[trigger]
                    self.nearest(seed, r, m) ==> m <= k && (precedes(r, q) ==> m < k)
            };
        assert(k <= n && n <= k);
        if p != q {
            assert(precedes(p, q) || precedes(q, p));
        }
    }
}

impl<const S: usize> Maze<S> {
    /// No cell holds a greater distance than the cell at `p`, and none before
    /// it in row-major order holds as great a one.
    pub open spec fn tops_field(&self, p: Spot) -> bool {
        &&& Self::on_grid(p)
        &&& forall|q: Spot|
            Self::on_grid(q) ==> reach((#[trigger] self.cell(q)).dist) <= reach(self.cell(p).dist)
        &&& forall|q: Spot|
            Self::on_grid(q) && precedes(q, p) ==> reach((#[trigger] self.cell(q)).dist) < reach(
                self.cell(p).dist,
            )
    }

    /// The first cell in row-major order among those that hold the greatest
    /// distance; a cell without a distance counts as less than any with one.
    pub fn farthest(&self) -> (far: Pos)
        requires
            self.wf(),
        ensures
            self.tops_field(far@),
    {
        let mut far = Pos { x: 0, y: 0 };
        let mut best = self.cells[0][0].dist;
        let mut y: usize = 0;
        while y < S
            invariant
                y <= S,
                self.wf(),
                Self::on_grid(far@),
                best == self.cell(far@).dist,
                y == 0 ==> far@ == (0int, 0int),
                y > 0 ==> far.y < y,
                forall|q: Spot|
                    Self::on_grid(q) && q.1 < y ==> reach((#[trigger] self.cell(q)).dist) <= reach(
                        best,
                    ),
                forall|q: Spot|
                    Self::on_grid(q) && q.1 < y && precedes(q, far@) ==> reach(
                        (#[trigger] self.cell(q)).dist,
                    ) < reach(best),
            decreases S - y,
        {
            let mut x: usize = 0;
            while x < S
                invariant
                    y < S,
                    x <= S,
                    self.wf(),
                    Self::on_grid(far@),
                    best == self.cell(far@).dist,
                    y == 0 && x == 0 ==> far@ == (0int, 0int),
                    y > 0 || x > 0 ==> precedes(far@, (x as int, y as int)),
                    forall|q: Spot|
                        Self::on_grid(q) && precedes(q, (x as int, y as int)) ==> reach(
                            (#[trigger] self.cell(q)).dist,
                        ) <= reach(best),
                    forall|q: Spot|
                        Self::on_grid(q) && precedes(q, far@) ==> reach(
                            (#[trigger] self.cell(q)).dist,
                        ) < reach(best),
                decreases S - x,
            {
                let here = self.cells[y][x].dist;
                let more = match (here, best) {
                    (Some(a), Some(b)) => a > b,
                    (Some(_), None) => true,
                    _ => false,
                };
                assert(more == (reach(here) > reach(best)));
                if more {
                    far = Pos { x, y };
                    best = here;
                }
                x += 1;
            }
            y += 1;
        }
        far
    }

    /// On a maze measured from `seed`, the cell that tops the distance field
    /// is the cell farthest from `seed`.
    pub proof fn lemma_tops_is_farthest(&self, seed: Spot, p: Spot)
        requires
            self.wf(),
            Self::on_grid(seed),
            self.measured_from(seed),
            self.tops_field(p),
        ensures
            self@.is_farthest(seed, p),
            self.cell(p).dist is Some,
    {
        let shape = self@;
        assert(shape.walk(seed, seed, 0));
        assert(shape.reachable(seed, seed));
        assert(self.cell(seed).dist is Some);
        assert(reach(self.cell(seed).dist) <= reach(self.cell(p).dist));
        let n = self.cell(p).dist->0 as nat;
        assert(shape.nearest(seed, p, n));
        assert forall|q: Spot, m: nat| #[trigger] shape.nearest(seed, q, m) implies m <= n && (
        precedes(q, p) ==> m < n) by {
            shape.lemma_walk_inside(seed, q, m);
            assert(shape.reachable(seed, q));
            let k = self.cell(q).dist->0 as nat;
            assert(shape.nearest(seed, q, k));
            if k < m {
                assert(!shape.walk(seed, q, k));
            } else if m < k {
                assert(!shape.walk(seed, q, m));
            }
            assert(reach(self.cell(q).dist) == m);
        }
    }

    /// Finds two cells that lie farthest apart, starting the search at
    /// `first`, and makes them the end points.
    ///
    /// The maze is measured from `first`, then from the cell farthest from
    /// `first`, which becomes the end point, then from the cell farthest from
    /// that, which becomes the start point; so the distances that are left
    /// are those from the new start point. Of several cells equally far the
    /// first in row-major order is taken. Returns the start and the end
    /// point. Where the open walls form a tree over the free cells and
    /// `first` is free, no two cells lie farther apart than these; where no
    /// wall of a masked cell is open and `first` is free, both are free.
    pub fn longest_from(&mut self, first: Pos) -> (ends: (Pos, Pos))
        requires
            old(self).wf(),
            Self::on_grid(first@),
        ensures
            final(self).wf(),
            final(self)@ == old(self)@,
            final(self).start == ends.0,
            final(self).end == ends.1,
            forall|p: Spot|
                Self::on_grid(p) ==> (#[trigger] final(self).cell(p)).path == old(self).cell(
                    p,
                ).path,
            old(self)@.is_farthest(first@, ends.1@),
            old(self)@.is_farthest(ends.1@, ends.0@),
            final(self).measured_from(ends.0@),
            old(self)@.rooted() && old(self)@.free(first@) ==> old(self)@.widest(
                ends.1@,
                ends.0@,
            ),
            old(self)@.tidy() && old(self)@.free(first@) ==> old(self)@.free(ends.0@) && old(self)@.free(ends.1@),
    {
        self.measure(first);
        let end = self.farthest();
        proof {
            self.lemma_tops_is_farthest(first@, end@);
        }
        self.measure(end);
        let start = self.farthest();
        proof {
            self.lemma_tops_is_farthest(end@, start@);
        }
        self.measure(start);
        let ghost measured = *self;
        self.start = start;
        self.end = end;
        proof {
            assert forall|p: Spot| Self::on_grid(p) implies #[trigger] self.cell(p) == measured.cell(
                p,
            ) by {}
            assert(self@ =~= measured@);
            if old(self)@.rooted() && old(self)@.free(first@) {
                old(self)@.lemma_longest_is_widest(first@, end@, start@);
            }
            if old(self)@.tidy() && old(self)@.free(first@) {
                old(self)@.lemma_far_free(first@, end@);
                old(self)@.lemma_far_free(end@, start@);
            }
        }
        (start, end)
    }

    /// Finds two cells that lie farthest apart and makes them the end
    /// points; the search starts at the first free cell in row-major order.
    /// See [`Maze::longest_from`]. Returns the start and the end point, or
    /// `None`, with the maze as it was, where no cell is free. Where the open
    /// walls form a tree over the free cells, no two cells lie farther apart
    /// than the two returned; where no wall of a masked cell is open, both
    /// are free.
    pub fn calc_longest(&mut self) -> (ends: Option<(Pos, Pos)>)
        requires
            old(self).wf(),
        ensures
            final(self).wf(),
            final(self)@ == old(self)@,
            match ends {
                None => *final(self) == *old(self) && forall|p: Spot| !#[trigger] old(self)@.free(p),
                Some((start, end)) => {
                    &&& final(self).start == start
                    &&& final(self).end == end
                    &&& forall|p: Spot|
                        Self::on_grid(p) ==> (#[trigger] final(self).cell(p)).path == old(self).cell(p).path
                    &&& exists|first: Spot|
                        {
                            &&& #[trigger] old(self)@.is_first_free(first)
                            &&& old(self)@.is_farthest(first, end@)
                        }
                    &&& old(self)@.is_farthest(end@, start@)
                    &&& final(self).measured_from(start@)
                    &&& old(self)@.rooted() ==> old(self)@.widest(end@, start@)
                    &&& old(self)@.tidy() ==> old(self)@.free(start@) && old(self)@.free(end@)
                },
            },
    {
        match self.first_free() {
            None => None,
            Some(first) => {
                let ends = self.longest_from(first);
                proof {
                    assert(old(self)@.is_first_free(first@));
                }
                Some(ends)
            },
        }
    }
}

} // verus!
