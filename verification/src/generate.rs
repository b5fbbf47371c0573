//! What the generators share: the check that the mask leaves one connected
//! playable area, and the way a refused maze is handed back.

use vstd::prelude::*;
use crate::binary_tree::binary_tree_of;
use crate::hunt_kill::hunt_and_kill_of;
use crate::maze::{Cell, Maze, Pos};
use crate::random::Dice;
use crate::sidewinder::sidewinder_of;
use crate::walker::walker_of;
use crate::shape::{Spot, precedes};

verus! {

/// Why a generator refused a maze.
#[derive(Copy, Clone, Debug, PartialEq, Eq, Structural)]
pub enum Flaw {
    /// The free cells do not form one connected area, or there is none.
    Disconnected,
    /// The generator works on grids without masked cells only.
    Masked,
}

/// A maze that a generator refused, untouched, with the reason.
#[derive(Debug)]
pub struct Refused<const S: usize> {
    pub maze: Maze<S>,
    pub flaw: Flaw,
}

impl<const S: usize> Maze<S> {
    /// `self` is a freshly carved maze over the mask of `given`: its open
    /// walls form a spanning tree over the free cells, which can be rooted;
    /// no distance or path flag is set, and the start point is the first and
    /// the end point the last free cell in row-major order.
    pub open spec fn carved_from(&self, given: &Self) -> bool {
        &&& self.wf()
        &&& self@.is_spanning_tree()
        &&& self@.rooted()
        &&& self@.masked == given@.masked
        &&& self@.is_first_free(self.start@)
        &&& self@.is_last_free(self.end@)
        &&& forall|p: Spot|
            Self::on_grid(p) ==> (#[trigger] self.cell(p)).dist is None && self.cell(p).path is None
    }

    /// Mazes with the same shape have the same wall and mask flags on the
    /// grid.
    pub proof fn lemma_same_shape_same_walls(&self, other: &Self)
        requires
            self@ == other@,
        ensures
            forall|p: Spot|
                Self::on_grid(p) ==> {
                    &&& (#[trigger] self.cell(p)).up == other.cell(p).up
                    &&& self.cell(p).right == other.cell(p).right
                    &&& self.cell(p).masked == other.cell(p).masked
                },
    {
        assert forall|p: Spot| Self::on_grid(p) implies {
            &&& (#[trigger] self.cell(p)).up == other.cell(p).up
            &&& self.cell(p).right == other.cell(p).right
            &&& self.cell(p).masked == other.cell(p).masked
        } by {
            assert(self@.up.contains(p) == self.cell(p).up);
            assert(other@.up.contains(p) == other.cell(p).up);
            assert(self@.right.contains(p) == self.cell(p).right);
            assert(other@.right.contains(p) == other.cell(p).right);
            assert(self@.masked.contains(p) == self.cell(p).masked);
            assert(other@.masked.contains(p) == other.cell(p).masked);
        }
    }

    /// Carving again reproduces the maze: two mazes with the same mask,
    /// carved by the same generator with the same dice, end up with the same
    /// walls, whatever walls, distances or end points they had before.
    pub proof fn lemma_same_mask_same_maze(
        first: &Self,
        second: &Self,
        dice: Dice,
        budget: nat,
        once: &Self,
        again: &Self,
    )
        requires
            first.wf(),
            second.wf(),
            forall|p: Spot|
                Self::on_grid(p) ==> (#[trigger] first.cell(p)).masked == second.cell(p).masked,
            ({
                ||| once@ == binary_tree_of(S as int, first@.masked, dice).0 && again@
                    == binary_tree_of(S as int, second@.masked, dice).0
                ||| once@ == sidewinder_of(S as int, first@.masked, dice).0 && again@
                    == sidewinder_of(S as int, second@.masked, dice).0
                ||| once@ == hunt_and_kill_of(S as int, first@.masked, dice).0 && again@
                    == hunt_and_kill_of(S as int, second@.masked, dice).0
                ||| once@ == walker_of(S as int, first@.masked, dice, budget).0 && again@
                    == walker_of(S as int, second@.masked, dice, budget).0
            }),
        ensures
            once@ == again@,
            forall|p: Spot|
                Self::on_grid(p) ==> {
                    &&& (#[trigger] once.cell(p)).up == again.cell(p).up
                    &&& once.cell(p).right == again.cell(p).right
                    &&& once.cell(p).masked == again.cell(p).masked
                },
    {
        assert(first@.masked =~= second@.masked);
        once.lemma_same_shape_same_walls(again);
    }

    /// The first free cell in row-major order.
    pub fn first_free(&self) -> (found: Option<Pos>)
        requires
            self.wf(),
        ensures
            match found {
                Some(pos) => {
                    &&& self@.free(pos@)
                    &&& forall|q: Spot| Self::on_grid(q) && precedes(q, pos@) ==> !#[trigger] self@.free(q)
                },
                None => forall|q: Spot| !#[trigger] self@.free(q),
            },
    {
        let mut y: usize = 0;
        while y < S
            invariant
                y <= S,
                self.wf(),
                forall|q: Spot| Self::on_grid(q) && q.1 < y ==> !#[trigger] self@.free(q),
            decreases S - y,
        {
            let mut x: usize = 0;
            while x < S
                invariant
                    y < S,
                    x <= S,
                    self.wf(),
                    forall|q: Spot|
                        Self::on_grid(q) && precedes(q, (x as int, y as int)) ==> !#[trigger] self@.free(q),
                decreases S - x,
            {
                if !self.cells[y][x].masked {
                    return Some(Pos { x, y });
                }
                x += 1;
            }
            y += 1;
        }
        None
    }

    /// The last free cell in row-major order.
    pub fn last_free(&self) -> (found: Option<Pos>)
        requires
            self.wf(),
        ensures
            match found {
                Some(pos) => self@.is_last_free(pos@),
                None => forall|q: Spot| !#[trigger] self@.free(q),
            },
    {
        let mut y: usize = S;
        while y > 0
            invariant
                y <= S,
                self.wf(),
                forall|q: Spot| Self::on_grid(q) && q.1 >= y ==> !#[trigger] self@.free(q),
            decreases y,
        {
            y -= 1;
            let mut x: usize = S;
            while x > 0
                invariant
                    y < S,
                    x <= S,
                    self.wf(),
                    forall|q: Spot|
                        Self::on_grid(q) && (q.1 > y || (q.1 == y && q.0 >= x))
                            ==> !#[trigger] self@.free(q),
                decreases x,
            {
                x -= 1;
                if !self.cells[y][x].masked {
                    return Some(Pos { x, y });
                }
            }
        }
        None
    }

    /// Puts the start point on the first and the end point on the last free
    /// cell in row-major order; where no cell is free they stay where they
    /// are. Nothing else changes.
    pub fn seat_ends(&mut self)
        requires
            old(self).wf(),
        ensures
            final(self).wf(),
            forall|p: Spot| Self::on_grid(p) ==> #[trigger] final(self).cell(p) == old(self).cell(p),
            final(self)@ == old(self)@,
            (forall|q: Spot| !#[trigger] old(self)@.free(q)) ==> final(self).start == old(self).start && final(self).end == old(self).end,
            (exists|q: Spot| old(self)@.free(q)) ==> final(self)@.is_first_free(final(self).start@)
                && final(self)@.is_last_free(final(self).end@),
    {
        let first = self.first_free();
        let last = self.last_free();
        match (first, last) {
            (Some(first), Some(last)) => {
                self.start = first;
                self.end = last;
            },
            _ => {},
        }
        proof {
            assert forall|p: Spot| Self::on_grid(p) implies #[trigger] self.cell(p) == old(self).cell(p) by {}
            assert(self@.up =~= old(self)@.up);
            assert(self@.right =~= old(self)@.right);
            assert(self@.masked =~= old(self)@.masked);
        }
    }

    /// A freshly carved maze has its end points on the first and the last
    /// free cell if the maze it was carved in had, with the same mask.
    pub proof fn lemma_ends_seated(&self, seated: &Self)
        requires
            self@.masked == seated@.masked,
            self.start == seated.start,
            self.end == seated.end,
            seated@.is_first_free(seated.start@),
            seated@.is_last_free(seated.end@),
        ensures
            self@.is_first_free(self.start@),
            self@.is_last_free(self.end@),
    {
        self@.lemma_same_mask_same_ends(seated@, self.start@);
        self@.lemma_same_mask_same_ends(seated@, self.end@);
    }

    /// A maze with the mask of `self` in which every wall between two free
    /// cells is open.
    fn open_lattice(&self) -> (lattice: Self)
        requires
            self.wf(),
        ensures
            lattice.wf(),
            lattice@ == self@.lattice(),
    {
        let mut lattice = Self::default();
        let mut y: usize = 0;
        while y < S
            invariant
                y <= S,
                self.wf(),
                lattice.wf(),
                forall|p: Spot|
                    Self::on_grid(p) && p.1 < y ==> {
                        &&& (#[trigger] lattice.cell(p)).masked == self.cell(p).masked
                        &&& lattice.cell(p).up == self@.lattice().up.contains(p)
                        &&& lattice.cell(p).right == self@.lattice().right.contains(p)
                    },
            decreases S - y,
        {
            let mut x: usize = 0;
            while x < S
                invariant
                    y < S,
                    x <= S,
                    self.wf(),
                    lattice.wf(),
                    forall|p: Spot|
                        Self::on_grid(p) && precedes(p, (x as int, y as int)) ==> {
                            &&& (#[trigger] lattice.cell(p)).masked == self.cell(p).masked
                            &&& lattice.cell(p).up == self@.lattice().up.contains(p)
                            &&& lattice.cell(p).right == self@.lattice().right.contains(p)
                        },
                decreases S - x,
            {
                let masked = self.cells[y][x].masked;
                let up = !masked && y + 1 < S && !self.cells[y + 1][x].masked;
                let right = !masked && x + 1 < S && !self.cells[y][x + 1].masked;
                proof {
                    let p = (x as int, y as int);
                    assert(Self::on_grid((p.0, p.1 + 1)) ==> self@.masked.contains((p.0, p.1 + 1))
                        == self.cell((p.0, p.1 + 1)).masked);
                    assert(Self::on_grid((p.0 + 1, p.1)) ==> self@.masked.contains((p.0 + 1, p.1))
                        == self.cell((p.0 + 1, p.1)).masked);
                }
                lattice.set(x, y, Cell { up, right, dist: None, path: None, masked });
                x += 1;
            }
            y += 1;
        }
        proof {
            let want = self@.lattice();
            assert(lattice@.up =~= want.up);
            assert(lattice@.right =~= want.right);
            assert(lattice@.masked =~= want.masked);
        }
        lattice
    }

    /// Whether every cell that is free holds a distance.
    fn all_free_measured(&self) -> (all: bool)
        requires
            self.wf(),
        ensures
            all <==> forall|p: Spot| self@.free(p) ==> self.cell(p).dist is Some,
    {
        let mut y: usize = 0;
        while y < S
            invariant
                y <= S,
                self.wf(),
                forall|p: Spot| self@.free(p) && p.1 < y ==> self.cell(p).dist is Some,
            decreases S - y,
        {
            let mut x: usize = 0;
            while x < S
                invariant
                    y < S,
                    x <= S,
                    self.wf(),
                    forall|p: Spot|
                        self@.free(p) && precedes(p, (x as int, y as int)) ==> self.cell(p).dist
                            is Some,
                decreases S - x,
            {
                if !self.cells[y][x].masked && self.cells[y][x].dist.is_none() {
                    assert(self@.free((x as int, y as int)));
                    return false;
                }
                x += 1;
            }
            y += 1;
        }
        true
    }

    /// Whether the mask leaves one connected playable area: there is a free
    /// cell, and steps over free cells lead from every free cell to every
    /// other. A flood from the first free cell decides it.
    pub fn mask_connected(&self) -> (connected: bool)
        requires
            self.wf(),
        ensures
            connected == self@.mask_connected(),
    {
        match self.first_free() {
            None => false,
            Some(first) => {
                let flooded = self.open_lattice().calc_dist(first);
                let all = flooded.all_free_measured();
                proof {
                    let lattice = self@.lattice();
                    let seed = first@;
                    assert(flooded@ == lattice);
                    assert(self@.free(seed));
                    if all {
                        assert forall|a: Spot, b: Spot|
                            lattice.free(a) && lattice.free(b) implies #[trigger] lattice.reachable(
                            a,
                            b,
                        ) by {
                            let n = flooded.cell(a).dist->0 as nat;
                            let m = flooded.cell(b).dist->0 as nat;
                            assert(lattice.nearest(seed, a, n));
                            assert(lattice.nearest(seed, b, m));
                            lattice.lemma_walk_back(seed, a, n);
                            lattice.lemma_walk_join(a, seed, b, n, m);
                            assert(lattice.walk(a, b, n + m));
                        }
                    } else {
                        let c = choose|p: Spot| flooded@.free(p) && !(flooded.cell(p).dist is Some);
                        assert(!lattice.reachable(seed, c));
                        assert(lattice.free(seed) && lattice.free(c));
                    }
                }
                all
            },
        }
    }
}

} // verus!
