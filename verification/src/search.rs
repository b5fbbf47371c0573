//! The search for a seed whose maze has a long way through it.

use vstd::prelude::*;
use crate::hunt_kill::hunt_and_kill_of;
use crate::maze::{Cell, Maze, Pos};
use crate::random::Dice;
use crate::shape::{Shape, Spot, precedes};

verus! {

impl Shape {
    /// The cell farthest from `seed`.
    pub open spec fn far_from(self, seed: Spot) -> Spot {
        choose|p: Spot| self.is_farthest(seed, p)
    }

    /// The length of the way that the search for the longest way finds: the
    /// hop distance between the cell farthest from the first free cell and
    /// the cell farthest from that one.
    pub open spec fn breadth(self) -> nat {
        let end = self.far_from(self.first_free());
        let start = self.far_from(end);
        choose|n: nat| self.nearest(start, end, n)
    }

    /// The breadth is the distance between the ends that the search finds.
    pub proof fn lemma_breadth(self, first: Spot, end: Spot, start: Spot, n: nat)
        requires
            self.is_first_free(first),
            self.is_farthest(first, end),
            self.is_farthest(end, start),
            self.nearest(start, end, n),
        ensures
            self.breadth() == n,
    {
        self.lemma_first_free(first);
        self.lemma_farthest_unique(first, end, self.far_from(first));
        self.lemma_farthest_unique(end, start, self.far_from(end));
        let k = choose|k: nat| self.nearest(start, end, k);
        if k < n {
            assert(!self.walk(start, end, k));
        } else if n < k {
            assert(!self.walk(start, end, n));
        }
    }
}

/// The breadth of the maze that hunt and kill carves from the seed `seed` on
/// a grid of side `side` with mask `masked`.
pub open spec fn breadth_of_seed(side: int, masked: Set<Spot>, seed: u64) -> nat {
    hunt_and_kill_of(side, masked, Dice { seed, drawn: 0 }).0.breadth()
}

/// The better of a seed found earlier and a new one: the new one only if its
/// maze is broader.
pub fn broader(best: Option<(u64, u32)>, seed: u64, breadth: u32) -> (kept: Option<(u64, u32)>)
    ensures
        kept == match best {
            Some((_, most)) if most >= breadth => best,
            _ => Some((seed, breadth)),
        },
{
    match best {
        Some((_, most)) => {
            if most >= breadth {
                best
            } else {
                Some((seed, breadth))
            }
        },
        None => Some((seed, breadth)),
    }
}

impl<const S: usize> Clone for Maze<S> {
    /// A maze of its own with the same cells and end points.
    fn clone(&self) -> (copy: Self)
        ensures
            copy.start == self.start,
            copy.end == self.end,
            copy.cells@.len() == self.cells@.len(),
            forall|y: int|
                0 <= y < self.cells@.len() ==> (#[trigger] copy.cells@[y])@ == self.cells@[y]@,
    {
        let mut cells: Vec<Vec<Cell>> = Vec::new();
        let mut y: usize = 0;
        while y < self.cells.len()
            invariant
                y <= self.cells@.len(),
                cells@.len() == y,
                forall|j: int| 0 <= j < y ==> (#[trigger] cells@[j])@ == self.cells@[j]@,
            decreases self.cells@.len() - y,
        {
            let mut row: Vec<Cell> = Vec::new();
            let mut x: usize = 0;
            while x < self.cells[y].len()
                invariant
                    y < self.cells@.len(),
                    x <= self.cells@[y as int]@.len(),
                    row@.len() == x,
                    forall|i: int| 0 <= i < x ==> #[trigger] row@[i] == self.cells@[y as int]@[i],
                decreases self.cells@[y as int]@.len() - x,
            {
                row.push(self.cells[y][x]);
                x += 1;
            }
            assert(row@ =~= self.cells@[y as int]@);
            cells.push(row);
            y += 1;
        }
        Maze { cells, start: self.start, end: self.end }
    }
}

impl<const S: usize> Maze<S> {
    /// A clone of a well-formed maze is well formed and has the same shape,
    /// distances and path flags.
    pub proof fn lemma_clone(&self, copy: &Self)
        requires
            self.wf(),
            copy.start == self.start,
            copy.end == self.end,
            copy.cells@.len() == self.cells@.len(),
            forall|y: int|
                0 <= y < self.cells@.len() ==> (#[trigger] copy.cells@[y])@ == self.cells@[y]@,
        ensures
            copy.wf(),
            copy@ == self@,
            forall|p: Spot| Self::on_grid(p) ==> #[trigger] copy.cell(p) == self.cell(p),
    {
        assert forall|p: Spot| Self::on_grid(p) implies #[trigger] copy.cell(p) == self.cell(
            p,
        ) by {
            assert(copy.cells@[p.1]@ == self.cells@[p.1]@);
        }
        assert(copy@.up =~= self@.up);
        assert(copy@.right =~= self@.right);
        assert(copy@.masked =~= self@.masked);
    }

    /// The breadth of the maze that hunt and kill carves over the mask of
    /// this one from the seed `seed`, or `None` where the mask does not leave
    /// one connected playable area. The maze itself stays as it is.
    pub fn breadth_from_seed(&self, seed: u64) -> (breadth: Option<u32>)
        requires
            self.wf(),
        ensures
            breadth is Some <==> self@.mask_connected(),
            breadth is Some ==> breadth->0 == breadth_of_seed(S as int, self@.masked, seed),
    {
        let copy = self.clone();
        proof {
            self.lemma_clone(&copy);
        }
        let mut dice = Dice::new(seed);
        match copy.hunt_and_kill(&mut dice) {
            Err(_) => None,
            Ok(carved) => {
                let mut carved = carved;
                let ghost shape = carved@;
                match carved.calc_longest() {
                    None => {
                        proof {
                            assert(shape.is_spanning_tree());
                            let p = choose|p: Spot| self@.free(p);
                            assert(shape.free(p));
                        }
                        None
                    },
                    Some((start, end)) => {
                        let found = carved.cells[end.y][end.x].dist;
                        proof {
                            let first = choose|first: Spot|
                                {
                                    &&& #[trigger] shape.is_first_free(first)
                                    &&& shape.is_farthest(first, end@)
                                };
                            let n = choose|n: nat|
                                {
                                    &&& #[trigger] shape.nearest(end@, start@, n)
                                    &&& forall|q: Spot, m: nat| #[trigger]
                                        shape.nearest(end@, q, m) ==> m <= n && (
                                        precedes(q, start@) ==> m < n)
                                };
                            shape.lemma_walk_back(end@, start@, n);
                            shape.lemma_walk_inside(start@, end@, n);
                            assert(shape.reachable(start@, end@));
                            assert(carved.cell(end@).dist is Some);
                            shape.lemma_breadth(first, end@, start@, found->0 as nat);
                        }
                        match found {
                            Some(breadth) => Some(breadth),
                            None => None,
                        }
                    },
                }
            },
        }
    }

    /// The seed below `tries` whose maze, carved by hunt and kill over the
    /// mask of this one, is the broadest, together with that breadth; of
    /// several such seeds the least. `None` where `tries` is zero or the mask
    /// does not leave one connected playable area. The maze itself stays as
    /// it is.
    pub fn broadest_seed(&self, tries: u64) -> (best: Option<(u64, u32)>)
        requires
            self.wf(),
        ensures
            best is Some <==> tries > 0 && self@.mask_connected(),
            match best {
                Some((seed, most)) => {
                    &&& seed < tries
                    &&& most == breadth_of_seed(S as int, self@.masked, seed)
                    &&& forall|other: u64|
                        other < tries ==> #[trigger] breadth_of_seed(
                            S as int,
                            self@.masked,
                            other,
                        ) <= most
                    &&& forall|other: u64|
                        other < seed ==> #[trigger] breadth_of_seed(
                            S as int,
                            self@.masked,
                            other,
                        ) < most
                },
                None => true,
            },
    {
        let mut best: Option<(u64, u32)> = None;
        let mut seed: u64 = 0;
        while seed < tries
            invariant
                seed <= tries,
                self.wf(),
                best is Some <==> seed > 0 && self@.mask_connected(),
                match best {
                    Some((kept, most)) => {
                        &&& kept < seed
                        &&& most == breadth_of_seed(S as int, self@.masked, kept)
                        &&& forall|other: u64|
                            other < seed ==> #[trigger] breadth_of_seed(
                                S as int,
                                self@.masked,
                                other,
                            ) <= most
                        &&& forall|other: u64|
                            other < kept ==> #[trigger] breadth_of_seed(
                                S as int,
                                self@.masked,
                                other,
                            ) < most
                    },
                    None => true,
                },
            decreases tries - seed,
        {
            match self.breadth_from_seed(seed) {
                Some(breadth) => {
                    best = broader(best, seed, breadth);
                },
                None => {},
            }
            seed += 1;
        }
        best
    }
}

} // verus!
