//! Path extraction: the walk from the end point back to the start point,
//! always stepping to a neighbour one hop nearer.

use vstd::prelude::*;
use crate::maze::{Direction, Maze, Pos};
use crate::shape::{Spot, toward};

verus! {

/// What a path extraction that could not reach the start leaves behind.
#[derive(Debug)]
pub struct Stuck<const S: usize> {
    /// The maze with the cells walked so far marked.
    pub maze: Maze<S>,
    /// The cell from which no neighbour is one hop nearer.
    pub at: Pos,
}

impl<const S: usize> Maze<S> {
    /// The neighbour of `p` in direction `d` lies behind an open wall and
    /// holds a distance one less than that of `p`.
    pub open spec fn descends(&self, p: Spot, d: Direction) -> bool {
        &&& self@.open(p, d)
        &&& self.cell(p).dist is Some
        &&& self.cell(toward(p, d)).dist is Some
        &&& self.cell(toward(p, d)).dist->0 + 1 == self.cell(p).dist->0
    }

    /// The direction the extraction takes from `p`: the first of west, east,
    /// south, north that descends, if any.
    pub open spec fn downhill(&self, p: Spot) -> Option<Direction> {
        if self.descends(p, Direction::West) {
            Some(Direction::West)
        } else if self.descends(p, Direction::East) {
            Some(Direction::East)
        } else if self.descends(p, Direction::South) {
            Some(Direction::South)
        } else if self.descends(p, Direction::North) {
            Some(Direction::North)
        } else {
            None
        }
    }

    /// The distance held at `p`, counting a missing one as zero.
    pub open spec fn height(&self, p: Spot) -> nat {
        match self.cell(p).dist {
            Some(k) => k as nat,
            None => 0,
        }
    }

    /// The cells the extraction visits from `p` on: it stops at the start
    /// point, or where no neighbour descends.
    pub open spec fn trail(&self, p: Spot) -> Seq<Spot>
        decreases self.height(p),
    {
        if p != self.start@ && self.downhill(p) is Some {
            seq![p] + self.trail(toward(p, self.downhill(p)->0))
        } else {
            seq![p]
        }
    }

    /// `self` is `given` with the path flag set on the cells of `marked`, and
    /// nothing else changed.
    pub open spec fn marks(&self, given: &Self, marked: Seq<Spot>) -> bool {
        &&& self.wf()
        &&& self.start == given.start
        &&& self.end == given.end
        &&& forall|p: Spot|
            Self::on_grid(p) ==> #[trigger] self.cell(p) == if marked.contains(p) {
                (crate::maze::Cell { path: Some(true), ..given.cell(p) })
            } else {
                given.cell(p)
            }
    }

    /// The trail is a chain: it begins at `p`, and each of its cells is joined
    /// to the next by an open wall and holds a distance one more.
    pub proof fn lemma_trail_chain(&self, p: Spot)
        requires
            self.wf(),
            Self::on_grid(p),
        ensures
            self.trail(p).len() >= 1,
            self.trail(p)[0] == p,
            forall|i: int|
                0 <= i < self.trail(p).len() ==> Self::on_grid(#[trigger] self.trail(p)[i]),
            forall|i: int|
                0 <= i < self.trail(p).len() - 1 ==> self@.linked(
                    #[trigger] self.trail(p)[i],
                    self.trail(p)[i + 1],
                ) && self.height(self.trail(p)[i]) == self.height(self.trail(p)[i + 1]) + 1,
        decreases self.height(p),
    {
        if p != self.start@ && self.downhill(p) is Some {
            let d = self.downhill(p)->0;
            let q = toward(p, d);
            assert(self.descends(p, d));
            self@.lemma_open_flip(p, d);
            self.lemma_trail_chain(q);
            let rest = self.trail(q);
            let all = self.trail(p);
            assert(all =~= seq![p] + rest);
            assert forall|i: int| 0 <= i < all.len() implies Self::on_grid(#[trigger] all[i]) by {
                if i > 0 {
                    assert(all[i] == rest[i - 1]);
                }
            }
            assert forall|i: int| 0 <= i < all.len() - 1 implies self@.linked(
                #[trigger] all[i],
                all[i + 1],
            ) && self.height(all[i]) == self.height(all[i + 1]) + 1 by {
                if i == 0 {
                    assert(all[1] == rest[0]);
                    assert(self@.open(p, d) && toward(p, d) == q);
                } else {
                    assert(all[i] == rest[i - 1]);
                    assert(all[i + 1] == rest[i]);
                }
            }
        }
    }

    /// On a maze measured from its start point, the trail from a cell that
    /// holds a distance arrives at the start point after exactly that many
    /// steps.
    pub proof fn lemma_trail_reaches_start(&self, p: Spot)
        requires
            self.wf(),
            self.measured_from(self.start@),
            Self::on_grid(p),
            self.cell(p).dist is Some,
        ensures
            self.trail(p).last() == self.start@,
            self.trail(p).len() - 1 == self.cell(p).dist->0,
        decreases self.height(p),
    {
        let shape = self@;
        let seed = self.start@;
        let k = self.cell(p).dist->0 as nat;
        assert(shape.nearest(seed, p, k));
        if p == seed {
            assert(shape.walk(seed, seed, 0));
            assert(self.trail(p) =~= seq![p]);
        } else {
            let d = shape.lemma_nearest_before(seed, p, k);
            let q = toward(p, d);
            shape.lemma_walk_inside(seed, q, (k - 1) as nat);
            assert(shape.reachable(seed, q));
            let j = self.cell(q).dist->0 as nat;
            assert(shape.nearest(seed, q, j));
            assert(j == k - 1) by {
                if j < k - 1 {
                    assert(!shape.walk(seed, q, j));
                } else if j > k - 1 {
                    assert(!shape.walk(seed, q, (k - 1) as nat));
                }
            }
            assert(self.descends(p, d));
            let e = self.downhill(p)->0;
            assert(self.descends(p, e));
            self.lemma_trail_reaches_start(toward(p, e));
            assert(self.trail(p) =~= seq![p] + self.trail(toward(p, e)));
        }
    }

    /// After measuring from the start point, the trail from an end point that
    /// the start reaches is a chain of open-wall steps from the end point to
    /// the start point, one step per hop of the end point's distance.
    pub proof fn lemma_solved_trail(&self)
        requires
            self.wf(),
            self.measured_from(self.start@),
            self.cell(self.end@).dist is Some,
        ensures
            self.trail(self.end@)[0] == self.end@,
            self.trail(self.end@).last() == self.start@,
            self.trail(self.end@).len() - 1 == self.cell(self.end@).dist->0,
            forall|i: int|
                0 <= i < self.trail(self.end@).len() - 1 ==> self@.linked(
                    #[trigger] self.trail(self.end@)[i],
                    self.trail(self.end@)[i + 1],
                ),
    {
        self.lemma_trail_chain(self.end@);
        self.lemma_trail_reaches_start(self.end@);
    }

    /// Sets the path flag of the cell at `pos`.
    fn mark(&mut self, pos: Pos)
        requires
            old(self).wf(),
            Self::on_grid(pos@),
        ensures
            final(self).wf(),
            final(self).start == old(self).start,
            final(self).end == old(self).end,
            final(self).cell(pos@) == (crate::maze::Cell {
                path: Some(true),
                ..old(self).cell(pos@)
            }),
            forall|q: Spot|
                Self::on_grid(q) && q != pos@ ==> #[trigger] final(self).cell(q) == old(self).cell(
                    q,
                ),
    {
        self.cells[pos.y][pos.x].path = Some(true);
    }

    /// Whether the neighbour of `pos` in `direction` descends.
    fn goes_down(&self, pos: Pos, direction: Direction) -> (next: Option<Pos>)
        requires
            self.wf(),
            Self::on_grid(pos@),
        ensures
            next is Some <==> self.descends(pos@, direction),
            next is Some ==> next->0@ == toward(pos@, direction),
    {
        if !self.can_go(pos.x, pos.y, direction) {
            return None;
        }
        let to = match direction {
            Direction::North => Pos { x: pos.x, y: pos.y + 1 },
            Direction::East => Pos { x: pos.x + 1, y: pos.y },
            Direction::South => Pos { x: pos.x, y: pos.y - 1 },
            Direction::West => Pos { x: pos.x - 1, y: pos.y },
        };
        match (self.cells[pos.y][pos.x].dist, self.cells[to.y][to.x].dist) {
            (Some(here), Some(there)) => {
                if there < here && here - there == 1 {
                    Some(to)
                } else {
                    None
                }
            },
            _ => None,
        }
    }

    /// The cell the extraction moves to from `pos`, if any.
    fn step_down(&self, pos: Pos) -> (next: Option<Pos>)
        requires
            self.wf(),
            Self::on_grid(pos@),
        ensures
            next is Some <==> self.downhill(pos@) is Some,
            next is Some ==> next->0@ == toward(pos@, self.downhill(pos@)->0),
    {
        let west = self.goes_down(pos, Direction::West);
        if west.is_some() {
            return west;
        }
        let east = self.goes_down(pos, Direction::East);
        if east.is_some() {
            return east;
        }
        let south = self.goes_down(pos, Direction::South);
        if south.is_some() {
            return south;
        }
        self.goes_down(pos, Direction::North)
    }

    /// Mazes with the same walls and distances go downhill the same way.
    proof fn lemma_trail_same(&self, other: &Self, p: Spot)
        requires
            self.wf(),
            other.wf(),
            Self::on_grid(p),
            self.start == other.start,
            forall|q: Spot|
                Self::on_grid(q) ==> {
                    &&& (#[trigger] self.cell(q)).dist == other.cell(q).dist
                    &&& self.cell(q).up == other.cell(q).up
                    &&& self.cell(q).right == other.cell(q).right
                },
        ensures
            self.downhill(p) == other.downhill(p),
    {
        assert forall|d: Direction| self@.open(p, d) == other@.open(p, d) by {
            match d {
                Direction::North => {},
                Direction::East => {},
                Direction::South => {
                    if p.1 > 0 {
                        assert(self.cell((p.0, p.1 - 1)).up == other.cell((p.0, p.1 - 1)).up);
                    }
                },
                Direction::West => {
                    if p.0 > 0 {
                        assert(self.cell((p.0 - 1, p.1)).right == other.cell(
                            (p.0 - 1, p.1),
                        ).right);
                    }
                },
            }
        }
        assert forall|d: Direction| self.descends(p, d) == other.descends(p, d) by {
            if self@.open(p, d) {
                assert(Self::on_grid(toward(p, d)));
            }
        }
    }

    /// Walks from the end point back to the start point and marks the way.
    ///
    /// From each cell the walk moves to the first neighbour, in the order
    /// west, east, south, north, that lies behind an open wall and holds a
    /// distance one less; every cell it visits gets its path flag set. It
    /// succeeds when it arrives at the start point. Where no neighbour
    /// qualifies it gives up and hands back the maze as marked so far,
    /// together with the cell it stopped at. Nothing but path flags changes.
    pub fn shortist_path(self) -> (found: Result<Self, Stuck<S>>)
        requires
            self.wf(),
        ensures
            found is Ok <==> self.trail(self.end@).last() == self.start@,
            match found {
                Ok(out) => out.marks(&self, self.trail(self.end@)),
                Err(stuck) => stuck.maze.marks(&self, self.trail(self.end@)) && stuck.at@
                    == self.trail(self.end@).last(),
            },
    {
        let ghost given = self;
        let mut maze = self;
        let mut cur = maze.end;
        let ghost mut walked: Seq<Spot> = Seq::empty();
        proof {
            assert(given.trail(given.end@) =~= walked + given.trail(cur@));
        }
        loop
            invariant
                given == self,
                given.wf(),
                Self::on_grid(cur@),
                maze.marks(&given, walked),
                given.trail(given.end@) == walked + given.trail(cur@),
            decreases given.height(cur@),
        {
            let ghost earlier = walked;
            let ghost unmarked = maze;
            maze.mark(cur);
            proof {
                walked = earlier.push(cur@);
                assert forall|p: Spot| Self::on_grid(p) implies #[trigger] maze.cell(p)
                    == if walked.contains(p) {
                    (crate::maze::Cell { path: Some(true), ..given.cell(p) })
                } else {
                    given.cell(p)
                } by {
                    if p == cur@ {
                        assert(walked[walked.len() - 1] == p);
                        assert(walked.contains(p));
                        assert(unmarked.cell(p) == if earlier.contains(p) {
                            (crate::maze::Cell { path: Some(true), ..given.cell(p) })
                        } else {
                            given.cell(p)
                        });
                    } else {
                        assert(maze.cell(p) == unmarked.cell(p));
                        if earlier.contains(p) {
                            let i = choose|i: int| 0 <= i < earlier.len() && earlier[i] == p;
                            assert(walked[i] == p);
                            assert(walked.contains(p));
                        } else if walked.contains(p) {
                            let i = choose|i: int| 0 <= i < walked.len() && walked[i] == p;
                            assert(earlier[i] == p);
                        }
                    }
                }
                assert(maze.marks(&given, walked));
                assert(walked.last() == cur@);
                maze.lemma_trail_same(&given, cur@);
            }
            if cur.x == maze.start.x && cur.y == maze.start.y {
                proof {
                    assert(given.trail(cur@) =~= seq![cur@]);
                    assert(given.trail(given.end@) =~= walked);
                }
                return Ok(maze);
            }
            match maze.step_down(cur) {
                None => {
                    proof {
                        assert(given.trail(cur@) =~= seq![cur@]);
                        assert(given.trail(given.end@) =~= walked);
                    }
                    return Err(Stuck { maze, at: cur });
                },
                Some(next) => {
                    proof {
                        let d = given.downhill(cur@)->0;
                        assert(given.descends(cur@, d));
                        assert(given.trail(cur@) =~= seq![cur@] + given.trail(next@));
                        assert(given.trail(given.end@) =~= walked + given.trail(next@));
                    }
                    cur = next;
                },
            }
        }
    }
}

} // verus!
