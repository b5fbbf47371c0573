//! The sidewinder generator: each row is cut into runs of cells joined
//! eastwards, and every run opens one wall to the row above.

use vstd::prelude::*;
use crate::generate::{Flaw, Refused};
use crate::maze::{Direction, Maze, Pos};
use crate::random::Dice;
use crate::shape::{Shape, Spot, closed, toward};
use crate::tally::lemma_tally_ones;
use crate::tree::one_if;

verus! {

/// The shape, the dice and the length of the run that goes on after the
/// sidewinder has handled the first `columns` cells of row `y`, from the
/// west. Below the top row a coin is tossed for every cell but the last,
/// and a number is drawn wherever a run ends.
pub open spec fn sidewinder_row(shape: Shape, dice: Dice, y: int, columns: nat) -> (
    Shape,
    Dice,
    nat,
)
    decreases columns,
{
    if columns == 0 {
        (shape, dice, 0)
    } else {
        let (before, rolled, run) = sidewinder_row(shape, dice, y, (columns - 1) as nat);
        let x = columns - 1;
        let (close, tossed) = if y + 1 < shape.side && x + 1 < shape.side {
            (!rolled.coin_spec().0, rolled.coin_spec().1)
        } else {
            (false, rolled)
        };
        if y + 1 < shape.side && (x + 1 == shape.side || close) {
            let (pick, after) = tossed.below_spec((run + 1) as usize);
            (before.wound_cell((x, y), close, pick as int), after, 0)
        } else {
            (before.wound_cell((x, y), close, 0), tossed, run + 1)
        }
    }
}

/// The shape and the dice after the sidewinder has handled the first `rows`
/// rows, from the bottom.
pub open spec fn sidewinder_grid(shape: Shape, dice: Dice, rows: nat) -> (Shape, Dice)
    decreases rows,
{
    if rows == 0 {
        (shape, dice)
    } else {
        let (before, rolled) = sidewinder_grid(shape, dice, (rows - 1) as nat);
        let (after, left, _) = sidewinder_row(before, rolled, rows - 1, shape.side as nat);
        (after, left)
    }
}

/// The maze that the sidewinder carves with `dice` on a grid of side `side`
/// with mask `masked`, and the dice it leaves.
pub open spec fn sidewinder_of(side: int, masked: Set<Spot>, dice: Dice) -> (Shape, Dice) {
    sidewinder_grid(closed(side, masked), dice, side as nat)
}

/// The distance between two columns.
pub open spec fn gap(a: int, b: int) -> nat {
    if a <= b {
        (b - a) as nat
    } else {
        (a - b) as nat
    }
}

impl Shape {
    /// The shape after the sidewinder has handled the cell at `p`. In the
    /// top row the cell is joined to its eastern neighbour (the corner is
    /// left alone). Below, the run ends in the last column and wherever
    /// `close` holds: the cell `pick` columns back opens to the north.
    /// Elsewhere the cell is joined to its eastern neighbour.
    pub open spec fn wound_cell(self, p: Spot, close: bool, pick: int) -> Shape {
        if p.1 == self.side - 1 {
            if p.0 == self.side - 1 {
                self
            } else {
                self.joined(p, Direction::East)
            }
        } else if p.0 == self.side - 1 || close {
            self.joined((p.0 - pick, p.1), Direction::North)
        } else {
            self.joined(p, Direction::East)
        }
    }

    /// The number of hops from `p` to the top right corner, where `exit`
    /// gives for every cell below the top row the column at which its run
    /// opens to the north.
    pub open spec fn run_depth(self, exit: Map<Spot, int>, p: Spot) -> nat
        decreases self.side - p.1,
    {
        if p.1 + 1 >= self.side {
            (self.side - 1 - p.0) as nat
        } else {
            self.run_depth(exit, (exit[p], p.1 + 1)) + 1 + gap(p.0, exit[p])
        }
    }

    /// The cell at `p` is as the sidewinder leaves it. In the top row it is
    /// joined to its eastern neighbour and closed to the north. Below, the
    /// column `exit[p]` lies on the grid, the cell opens north exactly if it
    /// stands there, shares that column with the eastern neighbour it is
    /// joined to, and is joined towards that column.
    pub open spec fn wound_at(self, exit: Map<Spot, int>, p: Spot) -> bool {
        if p.1 + 1 == self.side {
            !self.up.contains(p) && (self.right.contains(p) <==> p.0 + 1 < self.side)
        } else {
            &&& 0 <= exit[p] < self.side
            &&& self.up.contains(p) <==> exit[p] == p.0
            &&& self.right.contains(p) ==> p.0 + 1 < self.side && exit[(p.0 + 1, p.1)] == exit[p]
            &&& p.0 < exit[p] ==> self.right.contains(p)
            &&& p.0 > exit[p] ==> self.right.contains((p.0 - 1, p.1))
        }
    }

    /// Every cell is as the sidewinder leaves it, and no wall flag is set
    /// outside the grid.
    pub open spec fn wound(self, exit: Map<Spot, int>) -> bool {
        &&& forall|p: Spot| self.inside(p) ==> #[trigger] self.wound_at(exit, p)
        &&& forall|p: Spot| #[trigger] self.up.contains(p) ==> self.inside(p)
        &&& forall|p: Spot| #[trigger] self.right.contains(p) ==> self.inside(p)
    }

    /// The walls of a cell in sidewinder form lead one hop nearer to or
    /// farther from the corner, and exactly one of them leads nearer.
    proof fn lemma_wound_cell(self, exit: Map<Spot, int>, p: Spot)
        requires
            0 < self.side,
            self.wound(exit),
            self.inside(p),
        ensures
            forall|d: Direction| #[trigger]
                self.open(p, d) ==> {
                    let q = toward(p, d);
                    self.run_depth(exit, q) == self.run_depth(exit, p) + 1 || self.run_depth(
                        exit,
                        q,
                    ) + 1 == self.run_depth(exit, p)
                },
            one_up(self, exit, p) == (if p == (self.side - 1, self.side - 1) {
                0nat
            } else {
                1nat
            }),
    {
        let here = self.run_depth(exit, p);
        let north = toward(p, Direction::North);
        let east = toward(p, Direction::East);
        let south = toward(p, Direction::South);
        let west = toward(p, Direction::West);
        assert(self.wound_at(exit, p));
        if self.open(p, Direction::North) {
            assert(self.run_depth(exit, north) + 1 == here);
        }
        if self.open(p, Direction::East) {
            assert(self.wound_at(exit, east));
            assert(self.run_depth(exit, east) == here + 1 || self.run_depth(exit, east) + 1
                == here);
            assert(self.run_depth(exit, east) < here <==> (p.1 + 1 == self.side || p.0
                < exit[p]));
        }
        if self.open(p, Direction::West) {
            assert(self.wound_at(exit, west));
            assert(self.run_depth(exit, west) == here + 1 || self.run_depth(exit, west) + 1
                == here);
            assert(self.run_depth(exit, west) < here <==> (p.1 + 1 < self.side && p.0 > exit[p]));
        }
        if self.open(p, Direction::South) {
            assert(self.wound_at(exit, south));
            assert(exit[south] == p.0);
            assert(self.run_depth(exit, south) == here + 1);
        }
        if p.1 + 1 < self.side {
            if p.0 < exit[p] {
                assert(self.open(p, Direction::East));
            } else if p.0 > exit[p] {
                assert(self.wound_at(exit, west));
                assert(self.open(p, Direction::West));
            } else {
                assert(self.open(p, Direction::North));
            }
        } else if p.0 + 1 < self.side {
            assert(self.open(p, Direction::East));
        }
    }

    /// A grid in sidewinder form without masked cells holds a tree over all
    /// its cells, rooted in the top right corner.
    pub proof fn lemma_wound_spans(self, exit: Map<Spot, int>)
        requires
            0 < self.side,
            self.unmasked(),
            self.wound(exit),
        ensures
            self.tidy(),
            self.connected(),
            self.acyclic(),
            self.rooted(),
    {
        let corner = (self.side - 1, self.side - 1);
        let members = Set::new(|p: Spot| self.inside(p));
        let depth = Map::new(|p: Spot| self.inside(p), |p: Spot| self.run_depth(exit, p));
        assert forall|p: Spot| self.inside(p) implies self.free(p) by {
            assert(!self.masked.contains(p));
        }
        assert(self.tidy()) by {
            assert forall|p: Spot| #[trigger] self.up.contains(p) implies self.free(p)
                && self.free((p.0, p.1 + 1)) by {
                assert(self.wound_at(exit, p));
                assert(self.inside((p.0, p.1 + 1)));
            }
            assert forall|p: Spot| #[trigger] self.right.contains(p) implies self.free(p)
                && self.free((p.0 + 1, p.1)) by {
                assert(self.wound_at(exit, p));
                assert(self.inside((p.0 + 1, p.1)));
            }
        }
        assert forall|p: Spot, d: Direction| #[trigger] self.open(p, d) implies {
            &&& members.contains(p)
            &&& members.contains(toward(p, d))
            &&& (depth[toward(p, d)] == depth[p] + 1 || depth[toward(p, d)] + 1 == depth[p])
        } by {
            self.lemma_open_flip(p, d);
            self.lemma_wound_cell(exit, p);
        }
        assert forall|p: Spot| members.contains(p) implies #[trigger] self.parents(depth, p) == (
        if p == corner {
            0nat
        } else {
            1nat
        }) by {
            self.lemma_wound_cell(exit, p);
            assert forall|d: Direction| self.goes_up(depth, p, d) == nearer(self, exit, p, d) by {
                if self.open(p, d) {
                    self.lemma_open_flip(p, d);
                }
            }
        }
        self.lemma_tree_connected(members, corner, depth);
        self.lemma_tree_acyclic(members, corner, depth);
        assert(members =~= self.free_set());
        assert(self.is_tree_of(self.free_set(), corner, depth));
    }
}

/// The wall of `p` in direction `d` is open and leads nearer to the corner.
pub open spec fn nearer(shape: Shape, exit: Map<Spot, int>, p: Spot, d: Direction) -> bool {
    shape.open(p, d) && shape.run_depth(exit, toward(p, d)) < shape.run_depth(exit, p)
}

/// The number of open walls of `p` that lead nearer to the corner.
pub open spec fn one_up(shape: Shape, exit: Map<Spot, int>, p: Spot) -> nat {
    one_if(nearer(shape, exit, p, Direction::North)) + one_if(
        nearer(shape, exit, p, Direction::East),
    ) + one_if(nearer(shape, exit, p, Direction::South)) + one_if(
        nearer(shape, exit, p, Direction::West),
    )
}

impl<const S: usize> Maze<S> {
    /// Handles one cell in the sidewinder's sweep. `run` counts the cells of
    /// the current run, the cell at `pos` included.
    ///
    /// In the top row the cell is joined to its eastern neighbour (the corner
    /// is left alone). Below, the run ends in the last column and wherever
    /// `close` holds: the cell `pick` columns back opens to the north.
    /// Elsewhere the run goes on and the cell is joined to its eastern
    /// neighbour. Returns the length of the run that goes on.
    pub fn wind(&mut self, pos: Pos, run: usize, close: bool, pick: usize) -> (left: usize)
        requires
            old(self).wf(),
            Self::on_grid(pos@),
            1 <= run <= pos.x + 1,
            pick < run,
        ensures
            final(self).wf(),
            final(self).same_scratch(old(self)),
            final(self)@ == old(self)@.wound_cell(pos@, close, pick as int),
            left == if pos.y < S - 1 && (pos.x == S - 1 || close) {
                0
            } else {
                run
            },
    {
        if pos.y == S - 1 {
            if pos.x < S - 1 {
                self.carve(pos, Direction::East);
            }
            run
        } else if pos.x == S - 1 || close {
            self.carve(Pos { x: pos.x - pick, y: pos.y }, Direction::North);
            0
        } else {
            self.carve(pos, Direction::East);
            run
        }
    }

    /// Carves the maze by the sidewinder, drawing from `dice`.
    ///
    /// The generator takes no notice of masks: a maze with a masked cell is
    /// refused, untouched. Otherwise all walls are closed, scratch values
    /// forgotten and the end points put in opposite corners, and the rows are
    /// swept from the bottom up, each from west to east. Below the top row a coin decides at every cell whether the
    /// run goes on to the east or ends; in the last column it always ends. A
    /// run that ends opens to the north at one of its cells, picked at
    /// random. The top row is one run from end to end. Whatever is drawn, the
    /// open walls end up as a spanning tree; which one, and what is left of
    /// the dice, is given by [`sidewinder_of`].
    pub fn sidewinder(self, dice: &mut Dice) -> (made: Result<Self, Refused<S>>)
        requires
            self.wf(),
        ensures
            made is Ok <==> self@.unmasked(),
            match made {
                Ok(out) => {
                    &&& out.carved_from(&self)
                    &&& exists|exit: Map<Spot, int>| out@.wound(exit)
                    &&& (out@, *final(dice)) == sidewinder_of(S as int, self@.masked, *old(dice))
                },
                Err(refused) => {
                    &&& refused.maze == self
                    &&& refused.flaw == Flaw::Masked
                    &&& *final(dice) == *old(dice)
                },
            },
    {
        if self.any_masked() {
            return Err(Refused { maze: self, flaw: Flaw::Masked });
        }
        let ghost given = self;
        let mut maze = self.clear();
        let ghost unseated = maze;
        maze.seat_ends();
        let ghost blank = maze;
        let ghost mut exit: Map<Spot, int> = Map::new(|p: Spot| true, |p: Spot| 0int);
        proof {
            assert(maze@.masked =~= given@.masked);
            assert forall|p: Spot| Self::on_grid(p) implies (#[trigger] maze.cell(p)).dist is None
                && maze.cell(p).path is None by {
                assert(maze.cell(p) == unseated.cell(p));
            }
            assert(maze@.free((0int, 0int)));
            lemma_no_flags_no_edges(maze@);
        }
        let ghost start = maze@;
        let mut y: usize = 0;
        while y < S
            invariant
                y <= S,
                start.side == S,
                (maze@, *dice) == sidewinder_grid(start, *old(dice), y as nat),
                0 < S <= crate::maze::MAX_SIDE,
                maze.wf(),
                maze.same_scratch(&blank),
                maze@.masked == given@.masked,
                forall|p: Spot| maze@.inside(p) && p.1 < y ==> #[trigger] maze@.wound_at(exit, p),
                forall|p: Spot| #[trigger] maze@.up.contains(p) ==> maze@.inside(p) && p.1 < y,
                forall|p: Spot| #[trigger] maze@.right.contains(p) ==> maze@.inside(p) && p.1 < y,
                maze@.edges() + (if y == S { 1int } else { 0int }) == y * S,
            decreases S - y,
        {
            let mut x: usize = 0;
            let mut run: usize = 0;
            let ghost row = maze@;
            let ghost rolled = *dice;
            while x < S
                invariant
                    y < S,
                    x <= S,
                    run <= x,
                    row.side == S,
                    (maze@, *dice, run as nat) == sidewinder_row(row, rolled, y as int, x as nat),
                    y == S - 1 ==> run == x,
                    y < S - 1 && x == S ==> run == 0,
                    0 < S <= crate::maze::MAX_SIDE,
                    maze.wf(),
                    maze.same_scratch(&blank),
                    maze@.masked == given@.masked,
                    forall|p: Spot|
                        maze@.inside(p) && (p.1 < y || (p.1 == y && p.0 < x - run))
                            ==> #[trigger] maze@.wound_at(exit, p),
                    forall|p: Spot| #[trigger]
                        maze@.up.contains(p) ==> maze@.inside(p) && (p.1 < y || (p.1 == y && p.0
                            < x - run)),
                    forall|p: Spot| #[trigger]
                        maze@.right.contains(p) ==> maze@.inside(p) && (p.1 < y || (p.1 == y
                            && p.0 < x)),
                    forall|p: Spot|
                        p.1 == y && x - run <= p.0 < x ==> (#[trigger] maze@.right.contains(p)
                            <==> p.0 + 1 < S),
                    x - run > 0 ==> !maze@.right.contains((x - run - 1, y as int)),
                    maze@.edges() + (if y == S - 1 && x == S { 1int } else { 0int }) == y * S + x,
                decreases S - x,
            {
                run += 1;
                let close = if y < S - 1 && x < S - 1 {
                    !dice.coin()
                } else {
                    false
                };
                let pick = if y < S - 1 && (x == S - 1 || close) {
                    dice.below(run)
                } else {
                    0
                };
                let ghost before = maze@;
                let ghost old_exit = exit;
                let ghost first = x + 1 - run;
                let ghost column = x - pick;
                let left = maze.wind(Pos { x, y }, run, close, pick);
                proof {
                    let after = maze@;
                    let here = (x as int, y as int);
                    if y == S - 1 {
                        if x < S - 1 {
                            before.lemma_joined_edges(here, Direction::East);
                        }
                        assert forall|p: Spot| after.inside(p) && p.1 < y implies #[trigger] after.wound_at(
                            exit,
                            p,
                        ) by {
                            assert(before.wound_at(exit, p));
                        }
                    } else if x == S - 1 || close {
                        let top = (column, y as int);
                        before.lemma_joined_edges(top, Direction::North);
                        exit = Map::new(
                            |p: Spot| true,
                            |p: Spot|
                                if p.1 == y && first <= p.0 <= x {
                                    column
                                } else {
                                    old_exit[p]
                                },
                        );
                        assert forall|p: Spot|
                            after.inside(p) && (p.1 < y || (p.1 == y && p.0 < x + 1))
                            implies #[trigger] after.wound_at(exit, p) by {
                            if p.1 < y || p.0 < first {
                                assert(before.wound_at(old_exit, p));
                                if p.1 == y && p.0 + 1 == first {
                                    assert(!before.right.contains(p));
                                }
                            } else {
                                if p.0 < x {
                                    assert(before.right.contains(p));
                                }
                                if p.0 > first {
                                    assert(before.right.contains((p.0 - 1, p.1)));
                                }
                            }
                        }
                    } else {
                        before.lemma_joined_edges(here, Direction::East);
                        assert forall|p: Spot|
                            after.inside(p) && (p.1 < y || (p.1 == y && p.0 < first))
                            implies #[trigger] after.wound_at(exit, p) by {
                            assert(before.wound_at(exit, p));
                        }
                    }
                }
                run = left;
                x += 1;
            }
            proof {
                assert((y + 1) * S == y * S + S) by (nonlinear_arith);
                if y == S - 1 {
                    assert forall|p: Spot|
                        maze@.inside(p) && p.1 == y implies #[trigger] maze@.wound_at(exit, p) by {
                        assert(maze@.right.contains(p) <==> p.0 + 1 < S);
                    }
                }
            }
            y += 1;
        }
        proof {
            let shape = maze@;
            assert(shape.wound(exit));
            shape.lemma_wound_spans(exit);
            maze.lemma_ends_seated(&blank);
            let cells = |p: Spot| one_if(shape.free(p));
            assert forall|p: Spot| 0 <= p.0 < S && 0 <= p.1 < S implies #[trigger] cells(p)
                == 1 by {
                assert(shape.inside(p));
                assert(!shape.masked.contains(p));
            }
            lemma_tally_ones(cells, S as int);
        }
        Ok(maze)
    }
}

/// A shape without wall flags has no open wall.
pub proof fn lemma_no_flags_no_edges(shape: Shape)
    requires
        0 <= shape.side,
        shape.up == Set::<Spot>::empty(),
        shape.right == Set::<Spot>::empty(),
    ensures
        shape.edges() == 0,
{
    let walls = |p: Spot|
        one_if(shape.open(p, Direction::North)) + one_if(shape.open(p, Direction::East));
    assert forall|p: Spot| 0 <= p.0 < shape.side && 0 <= p.1 < shape.side implies #[trigger] walls(
        p,
    ) <= 0 by {}
    crate::tally::lemma_tally_bound(walls, shape.side, 0);
    assert(0 * shape.side * shape.side == 0) by (nonlinear_arith);
}

} // verus!
