//! Hop distances over the wall graph: a breadth-first sweep that labels every
//! cell with its least number of open-wall hops from a seed.

use vstd::prelude::*;
use crate::maze::{Direction, Maze, Pos};
use crate::shape::{Spot, toward};
use crate::tally::{tally, lemma_tally_bound, lemma_tally_change};

verus! {

impl<const S: usize> Maze<S> {
    /// `self` and `other` agree on walls, mask, path flags and end points;
    /// only distances may differ.
    pub open spec fn same_but_dist(&self, other: &Self) -> bool {
        &&& self.start == other.start
        &&& self.end == other.end
        &&& forall|p: Spot|
            Self::on_grid(p) ==> {
                &&& (#[trigger] self.cell(p)).up == other.cell(p).up
                &&& self.cell(p).right == other.cell(p).right
                &&& self.cell(p).masked == other.cell(p).masked
                &&& self.cell(p).path == other.cell(p).path
            }
    }

    /// Every cell holds its hop distance from `seed`: the least number of
    /// open-wall hops, or nothing where `seed` cannot reach it.
    pub open spec fn measured_from(&self, seed: Spot) -> bool {
        forall|p: Spot|
            Self::on_grid(p) ==> match (#[trigger] self.cell(p)).dist {
                Some(k) => self@.nearest(seed, p, k as nat),
                None => !self@.reachable(seed, p),
            }
    }

    /// The number of cells that hold a distance.
    pub open spec fn labeled(&self) -> nat {
        tally(|p: Spot| if self.cell(p).dist is Some { 1nat } else { 0nat }, S as int)
    }

    /// Exactly the cells within `level` hops of `seed` hold a distance, and
    /// it is their hop distance.
    spec fn settled(&self, seed: Spot, level: nat) -> bool {
        &&& forall|p: Spot|
            Self::on_grid(p) && (#[trigger] self.cell(p)).dist is Some ==> {
                &&& self.cell(p).dist->0 <= level
                &&& self@.nearest(seed, p, self.cell(p).dist->0 as nat)
            }
        &&& forall|p: Spot, k: nat|
            Self::on_grid(p) && k <= level && #[trigger] self@.nearest(seed, p, k)
                ==> self.cell(p).dist == Some(k as u32)
    }

    /// `layer` lists exactly the cells at distance `level`.
    spec fn is_layer(&self, layer: Seq<Pos>, level: u32) -> bool {
        &&& forall|i: int|
            0 <= i < layer.len() ==> Self::on_grid(#[trigger] layer[i]@) && self.cell(
                layer[i]@,
            ).dist == Some(level)
        &&& forall|p: Spot|
            Self::on_grid(p) && (#[trigger] self.cell(p)).dist == Some(level) ==> exists|i: int|
                0 <= i < layer.len() && #[trigger] layer[i]@ == p
    }

    /// While a level is swept: `self` extends `before` by cells at distance
    /// `level + 1`, all of them listed in `next`.
    spec fn advancing(&self, before: &Self, next: Seq<Pos>, seed: Spot, level: u32) -> bool {
        &&& self.wf()
        &&& self.same_but_dist(before)
        &&& forall|p: Spot|
            Self::on_grid(p) && before.cell(p).dist is Some ==> (#[trigger] self.cell(p)).dist
                == before.cell(p).dist
        &&& forall|p: Spot|
            Self::on_grid(p) && before.cell(p).dist is None && (#[trigger] self.cell(p)).dist
                is Some ==> {
                &&& self.cell(p).dist == Some((level + 1) as u32)
                &&& self@.nearest(seed, p, (level + 1) as nat)
                &&& exists|j: int| 0 <= j < next.len() && #[trigger] next[j]@ == p
            }
        &&& forall|j: int|
            0 <= j < next.len() ==> Self::on_grid(#[trigger] next[j]@) && self.cell(
                next[j]@,
            ).dist == Some((level + 1) as u32)
        &&& self.labeled() == before.labeled() + next.len()
    }

    /// Mazes that differ at most in their distances have the same shape.
    pub proof fn lemma_same_shape(&self, other: &Self)
        requires
            self.same_but_dist(other),
        ensures
            self@ == other@,
    {
        assert(self@.up =~= other@.up);
        assert(self@.right =~= other@.right);
        assert(self@.masked =~= other@.masked);
    }

    /// No more cells hold a distance than the grid has, and the grid has
    /// fewer cells than a `u32` can count.
    proof fn lemma_labeled_bound(&self)
        requires
            0 < S <= crate::maze::MAX_SIDE,
        ensures
            self.labeled() <= S * S,
            S * S <= 0xFFFE_0001,
    {
        let f = |p: Spot| if self.cell(p).dist is Some { 1nat } else { 0nat };
        assert forall|p: Spot| 0 <= p.0 < S && 0 <= p.1 < S implies #[trigger] f(p) <= 1 by {}
        lemma_tally_bound(f, S as int, 1);
        assert(1 * (S as int) * (S as int) == S * S) by (nonlinear_arith);
        assert(S * S <= 0xFFFE_0001) by (nonlinear_arith)
            requires
                0 < S <= 0xFFFF,
        ;
    }

    /// Overwrites the distance of the cell at `pos`.
    fn set_dist(&mut self, pos: Pos, dist: Option<u32>)
        requires
            old(self).wf(),
            Self::on_grid(pos@),
        ensures
            final(self).wf(),
            final(self).same_but_dist(old(self)),
            final(self).cell(pos@).dist == dist,
            forall|q: Spot|
                Self::on_grid(q) && q != pos@ ==> (#[trigger] final(self).cell(q)).dist == old(self).cell(q).dist,
            final(self).labeled() + (if old(self).cell(pos@).dist is Some {
                1nat
            } else {
                0nat
            }) == old(self).labeled() + (if dist is Some {
                1nat
            } else {
                0nat
            }),
    {
        let ghost before = *self;
        self.cells[pos.y][pos.x].dist = dist;
        proof {
            let f = |p: Spot| if before.cell(p).dist is Some { 1nat } else { 0nat };
            let g = |p: Spot| if self.cell(p).dist is Some { 1nat } else { 0nat };
            assert forall|p: Spot| 0 <= p.0 < S && 0 <= p.1 < S && p != pos@ implies #[trigger] f(
                p,
            ) == g(p) by {
                assert(self.cell(p) == before.cell(p));
            }
            lemma_tally_change(f, g, S as int, pos@);
        }
    }

    /// Forgets every distance.
    fn wipe_dist(&mut self)
        requires
            old(self).wf(),
        ensures
            final(self).wf(),
            final(self).same_but_dist(old(self)),
            forall|p: Spot| Self::on_grid(p) ==> (#[trigger] final(self).cell(p)).dist is None,
            final(self).labeled() == 0,
    {
        let ghost before = *self;
        let mut y: usize = 0;
        while y < S
            invariant
                y <= S,
                self.wf(),
                self.same_but_dist(&before),
                forall|p: Spot|
                    Self::on_grid(p) && p.1 < y ==> (#[trigger] self.cell(p)).dist is None,
            decreases S - y,
        {
            let mut x: usize = 0;
            while x < S
                invariant
                    y < S,
                    x <= S,
                    self.wf(),
                    self.same_but_dist(&before),
                    forall|p: Spot|
                        Self::on_grid(p) && (p.1 < y || (p.1 == y && p.0 < x)) ==> (
                        #[trigger] self.cell(p)).dist is None,
                decreases S - x,
            {
                self.set_dist(Pos { x, y }, None);
                x += 1;
            }
            y += 1;
        }
        proof {
            let f = |p: Spot| if self.cell(p).dist is Some { 1nat } else { 0nat };
            assert forall|p: Spot| 0 <= p.0 < S && 0 <= p.1 < S implies #[trigger] f(p) <= 0 by {
                assert(self.cell(p).dist is None);
            }
            lemma_tally_bound(f, S as int, 0);
            assert(0 * (S as int) * (S as int) == 0) by (nonlinear_arith);
        }
    }

    /// Looks from `from`, a cell at distance `level`, in `direction`: a
    /// neighbour behind an open wall that holds no distance yet gets
    /// `level + 1` and joins `next`.
    fn relax(
        &mut self,
        next: &mut Vec<Pos>,
        from: Pos,
        direction: Direction,
        level: u32,
        Ghost(before): Ghost<Self>,
        Ghost(seed): Ghost<Spot>,
    )
        requires
            old(self).advancing(&before, old(next)@, seed, level),
            before.settled(seed, level as nat),
            before.wf(),
            Self::on_grid(from@),
            before.cell(from@).dist == Some(level),
            level < 0xFFFE_0001,
        ensures
            final(self).advancing(&before, final(next)@, seed, level),
            forall|p: Spot|
                Self::on_grid(p) && old(self).cell(p).dist is Some ==> (#[trigger] final(self).cell(p)).dist is Some,
            old(self)@.open(from@, direction) ==> final(self).cell(
                toward(from@, direction),
            ).dist is Some,
    {
        proof {
            self.lemma_same_shape(&before);
        }
        if self.can_go(from.x, from.y, direction) {
            let to = match direction {
                Direction::North => Pos { x: from.x, y: from.y + 1 },
                Direction::East => Pos { x: from.x + 1, y: from.y },
                Direction::South => Pos { x: from.x, y: from.y - 1 },
                Direction::West => Pos { x: from.x - 1, y: from.y },
            };
            assert(to@ == toward(from@, direction));
            if self.cells[to.y][to.x].dist.is_none() {
                let ghost mid = *self;
                let ghost listed = next@;
                proof {
                    let shape = self@;
                    assert(before.cell(to@).dist is None);
                    shape.lemma_open_flip(from@, direction);
                    assert(shape.nearest(seed, from@, level as nat));
                    shape.lemma_walk_push(seed, to@, level as nat, direction.flip());
                    assert forall|k: nat| k < level + 1 implies !shape.walk(seed, to@, k) by {
                        if shape.walk(seed, to@, k) {
                            let j = shape.lemma_least_walk(seed, to@, k);
                            assert(shape.nearest(seed, to@, j));
                        }
                    }
                }
                self.set_dist(to, Some(level + 1));
                next.push(to);
                proof {
                    self.lemma_same_shape(&mid);
                    assert forall|p: Spot|
                        Self::on_grid(p) && before.cell(p).dist is None && (#[trigger] self.cell(
                            p,
                        )).dist is Some implies exists|j: int|
                        0 <= j < next@.len() && #[trigger] next@[j]@ == p by {
                        if p == to@ {
                            assert(next@[listed.len() as int]@ == p);
                        } else {
                            assert(mid.cell(p).dist is Some);
                            let j = choose|j: int| 0 <= j < listed.len() && #[trigger] listed[j]@ == p;
                            assert(next@[j]@ == p);
                        }
                    }
                    assert forall|j: int| 0 <= j < next@.len() implies Self::on_grid(
                        #[trigger] next@[j]@,
                    ) && self.cell(next@[j]@).dist == Some((level + 1) as u32) by {
                        if j < listed.len() {
                            assert(next@[j] == listed[j]);
                        }
                    }
                }
            }
        }
    }

    /// On a maze measured from `seed` every cell holds the hop distance from
    /// `seed`, and none where there is none.
    pub proof fn lemma_measured_distance(&self, seed: Spot, p: Spot)
        requires
            self.measured_from(seed),
            Self::on_grid(p),
        ensures
            match self@.distance(seed, p) {
                Some(n) => self.cell(p).dist == Some(n as u32) && n <= u32::MAX,
                None => self.cell(p).dist is None,
            },
    {
        match self.cell(p).dist {
            Some(k) => {
                self@.lemma_distance(seed, p, k as nat);
            },
            None => {},
        }
    }

    /// The distance field is a function of walls and seed: two mazes that
    /// differ at most in their distances and are both measured from `seed`
    /// hold the same cells. Measuring again, from the result or from the same
    /// maze, therefore changes nothing.
    pub proof fn lemma_measure_unique(&self, other: &Self, seed: Spot)
        requires
            self.same_but_dist(other),
            self.measured_from(seed),
            other.measured_from(seed),
        ensures
            forall|p: Spot| Self::on_grid(p) ==> #[trigger] self.cell(p) == other.cell(p),
    {
        self.lemma_same_shape(other);
        let shape = self@;
        assert forall|p: Spot| Self::on_grid(p) implies #[trigger] self.cell(p) == other.cell(
            p,
        ) by {
            let a = self.cell(p).dist;
            let b = other.cell(p).dist;
            if a is Some && b is Some {
                let i = a->0 as nat;
                let j = b->0 as nat;
                assert(shape.nearest(seed, p, i) && shape.nearest(seed, p, j));
                if i < j {
                    assert(!shape.walk(seed, p, i));
                } else if j < i {
                    assert(!shape.walk(seed, p, j));
                }
            } else if a is Some {
                assert(shape.walk(seed, p, a->0 as nat));
            } else if b is Some {
                assert(shape.walk(seed, p, b->0 as nat));
            }
        }
    }

    /// Labels every cell with its hop distance from `start`, in place; see
    /// [`Maze::calc_dist`].
    pub fn measure(&mut self, start: Pos)
        requires
            old(self).wf(),
            Self::on_grid(start@),
        ensures
            final(self).wf(),
            final(self).same_but_dist(old(self)),
            final(self)@ == old(self)@,
            final(self).measured_from(start@),
    {
        let ghost given = *self;
        let ghost seed = start@;
        self.wipe_dist();
        self.set_dist(start, Some(0));
        let mut frontier: Vec<Pos> = Vec::new();
        frontier.push(start);
        let mut level: u32 = 0;
        proof {
            self.lemma_same_shape(&given);
            assert(self@.walk(seed, seed, 0));
            assert(self.is_layer(frontier@, level)) by {
                assert(frontier@[0]@ == seed);
            }
        }
        while frontier.len() > 0
            invariant
                self.wf(),
                self.same_but_dist(&given),
                self@ == given@,
                self.settled(seed, level as nat),
                self.is_layer(frontier@, level),
                level + 1 <= self.labeled() + (if frontier@.len() == 0 {
                    1nat
                } else {
                    0nat
                }),
            decreases
                    2 * (S * S - self.labeled()) + (if frontier@.len() == 0 {
                        0int
                    } else {
                        1int
                    }),
        {
            proof {
                self.lemma_labeled_bound();
            }
            let ghost before = *self;
            let mut next: Vec<Pos> = Vec::new();
            let mut i: usize = 0;
            while i < frontier.len()
                invariant
                    i <= frontier@.len(),
                    before.wf(),
                    before@ == given@,
                    before.same_but_dist(&given),
                    before.settled(seed, level as nat),
                    before.is_layer(frontier@, level),
                    level < 0xFFFE_0001,
                    self.advancing(&before, next@, seed, level),
                    forall|j: int, d: Direction|
                        0 <= j < i && #[trigger] given@.open(frontier@[j]@, d) ==> self.cell(
                            toward(frontier@[j]@, d),
                        ).dist is Some,
                decreases frontier@.len() - i,
            {
                let from = frontier[i];
                proof {
                    self.lemma_same_shape(&before);
                }
                self.relax(&mut next, from, Direction::North, level, Ghost(before), Ghost(seed));
                self.relax(&mut next, from, Direction::East, level, Ghost(before), Ghost(seed));
                self.relax(&mut next, from, Direction::South, level, Ghost(before), Ghost(seed));
                self.relax(&mut next, from, Direction::West, level, Ghost(before), Ghost(seed));
                proof {
                    self.lemma_same_shape(&before);
                    assert forall|d: Direction| #[trigger]
                        given@.open(from@, d) implies self.cell(toward(from@, d)).dist is Some by {
                        match d {
                            Direction::North => {},
                            Direction::East => {},
                            Direction::South => {},
                            Direction::West => {},
                        }
                    }
                }
                i += 1;
            }
            proof {
                self.lemma_same_shape(&before);
                self.lemma_labeled_bound();
                let shape = self@;
                assert forall|p: Spot, k: nat|
                    Self::on_grid(p) && k <= level + 1 && #[trigger] shape.nearest(
                        seed,
                        p,
                        k,
                    ) implies self.cell(p).dist == Some(k as u32) by {
                    if k <= level {
                        assert(before.cell(p).dist == Some(k as u32));
                    } else {
                        let d = shape.lemma_nearest_before(seed, p, k);
                        let q = toward(p, d);
                        shape.lemma_walk_inside(seed, q, level as nat);
                        assert(before.cell(q).dist == Some(level));
                        let j = choose|j: int| 0 <= j < frontier@.len() && #[trigger] frontier@[j]@ == q;
                        shape.lemma_open_flip(p, d);
                        assert(given@.open(frontier@[j]@, d.flip()));
                        assert(self.cell(p).dist is Some);
                        if before.cell(p).dist is Some {
                            assert(shape.nearest(seed, p, before.cell(p).dist->0 as nat));
                            assert(shape.walk(seed, p, before.cell(p).dist->0 as nat));
                        }
                    }
                }
                assert(self.settled(seed, (level + 1) as nat));
                assert(self.is_layer(next@, (level + 1) as u32));
            }
            level = level + 1;
            frontier = next;
        }
        proof {
            let shape = self@;
            assert forall|p: Spot| Self::on_grid(p) implies match (#[trigger] self.cell(p)).dist {
                Some(k) => shape.nearest(seed, p, k as nat),
                None => !shape.reachable(seed, p),
            } by {
                if self.cell(p).dist is None && shape.reachable(seed, p) {
                    let n = choose|n: nat| shape.walk(seed, p, n);
                    let k = shape.lemma_least_walk(seed, p, n);
                    if k <= level {
                        assert(self.cell(p).dist == Some(k as u32));
                    } else {
                        let c = shape.lemma_nearest_ancestor(seed, p, k, level as nat);
                        shape.lemma_walk_inside(seed, c, level as nat);
                        assert(self.cell(c).dist == Some(level));
                    }
                }
            }
        }
    }

    /// Labels every cell with its hop distance from `start`.
    ///
    /// All earlier distances are forgotten. A cell that `start` reaches
    /// through open walls gets the least number of hops that does so; every
    /// other cell is left without a distance. Walls, mask, path flags and end
    /// points stay as they are.
    pub fn calc_dist(self, start: Pos) -> (out: Self)
        requires
            self.wf(),
            Self::on_grid(start@),
        ensures
            out.wf(),
            out.same_but_dist(&self),
            out@ == self@,
            out.measured_from(start@),
    {
        let mut maze = self;
        maze.measure(start);
        maze
    }
}

} // verus!
