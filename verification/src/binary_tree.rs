//! The binary-tree generator: every cell opens its wall to the north or to
//! the east, by the toss of a coin.

use vstd::prelude::*;
use crate::generate::{Flaw, Refused};
use crate::maze::{Direction, Maze, Pos};
use crate::random::Dice;
use crate::shape::{Shape, Spot, closed, precedes, toward};
use crate::tally::{tally, lemma_tally_change, lemma_tally_ones};
use crate::tree::one_if;

verus! {

/// The shape and the dice after the binary-tree generator has handled the
/// first `rows` cells of column `x`, bottom up: a coin is tossed for every
/// cell but those of the top row and the last column.
pub open spec fn binary_column(shape: Shape, dice: Dice, x: int, rows: nat) -> (Shape, Dice)
    decreases rows,
{
    if rows == 0 {
        (shape, dice)
    } else {
        let (before, rolled) = binary_column(shape, dice, x, (rows - 1) as nat);
        let y = rows - 1;
        if x + 1 < shape.side && y + 1 < shape.side {
            let (north, after) = rolled.coin_spec();
            (before.binary_cell((x, y), north), after)
        } else {
            (before.binary_cell((x, y), false), rolled)
        }
    }
}

/// The shape and the dice after the binary-tree generator has handled the
/// first `columns` columns, from the west.
pub open spec fn binary_grid(shape: Shape, dice: Dice, columns: nat) -> (Shape, Dice)
    decreases columns,
{
    if columns == 0 {
        (shape, dice)
    } else {
        let (before, rolled) = binary_grid(shape, dice, (columns - 1) as nat);
        binary_column(before, rolled, columns - 1, shape.side as nat)
    }
}

/// The maze that the binary-tree generator carves with `dice` on a grid of
/// side `side` with mask `masked`, and the dice it leaves.
pub open spec fn binary_tree_of(side: int, masked: Set<Spot>, dice: Dice) -> (Shape, Dice) {
    binary_grid(closed(side, masked), dice, side as nat)
}

impl Shape {
    /// The shape after the binary-tree generator has handled the cell at
    /// `p`: east is opened in the top row, north in the last column, nothing
    /// in the top right corner, and elsewhere north if `north` holds and
    /// east if not.
    pub open spec fn binary_cell(self, p: Spot, north: bool) -> Shape {
        if p.0 == self.side - 1 && p.1 == self.side - 1 {
            self
        } else if p.0 == self.side - 1 || (p.1 < self.side - 1 && north) {
            self.joined(p, Direction::North)
        } else {
            self.joined(p, Direction::East)
        }
    }

    /// The cell at `p` is as the binary-tree generator leaves it: exactly one
    /// of its north and east walls is open, the east one in the top row, the
    /// north one in the last column, and none in the top right corner.
    pub open spec fn binary_at(self, p: Spot) -> bool {
        &&& self.up.contains(p) ==> p.1 + 1 < self.side
        &&& self.right.contains(p) ==> p.0 + 1 < self.side
        &&& !(self.up.contains(p) && self.right.contains(p))
        &&& (p.0 + 1 < self.side || p.1 + 1 < self.side) ==> self.up.contains(p)
            || self.right.contains(p)
    }

    /// Every cell is as the binary-tree generator leaves it, and no wall
    /// flag is set outside the grid.
    pub open spec fn binary_form(self) -> bool {
        &&& forall|p: Spot| self.inside(p) ==> #[trigger] self.binary_at(p)
        &&& forall|p: Spot| #[trigger] self.up.contains(p) ==> self.inside(p)
        &&& forall|p: Spot| #[trigger] self.right.contains(p) ==> self.inside(p)
    }

    /// The number of steps from `p` to the top right corner.
    pub open spec fn corner_distance(self, p: Spot) -> nat {
        ((self.side - 1 - p.0) + (self.side - 1 - p.1)) as nat
    }

    /// A grid in binary-tree form without masked cells is a spanning tree.
    pub proof fn lemma_binary_form_spans(self)
        requires
            0 < self.side,
            self.unmasked(),
            self.binary_form(),
        ensures
            self.is_spanning_tree(),
            self.rooted(),
    {
        let corner = (self.side - 1, self.side - 1);
        let members = Set::new(|p: Spot| self.inside(p));
        let depth = Map::new(|p: Spot| self.inside(p), |p: Spot| self.corner_distance(p));
        assert forall|p: Spot| self.inside(p) implies self.free(p) by {
            assert(!self.masked.contains(p));
        }
        assert(self.tidy()) by {
            assert forall|p: Spot| #[trigger] self.up.contains(p) implies self.free(p)
                && self.free((p.0, p.1 + 1)) by {
                assert(self.binary_at(p));
                assert(self.inside((p.0, p.1 + 1)));
            }
            assert forall|p: Spot| #[trigger] self.right.contains(p) implies self.free(p)
                && self.free((p.0 + 1, p.1)) by {
                assert(self.binary_at(p));
                assert(self.inside((p.0 + 1, p.1)));
            }
        }
        assert forall|p: Spot, d: Direction| #[trigger] self.open(p, d) implies {
            &&& members.contains(p)
            &&& members.contains(toward(p, d))
            &&& (depth[toward(p, d)] == depth[p] + 1 || depth[toward(p, d)] + 1 == depth[p])
        } by {
            let q = toward(p, d);
            self.lemma_open_flip(p, d);
            assert(self.inside(q));
        }
        assert forall|p: Spot| members.contains(p) implies #[trigger] self.parents(depth, p) == (
        if p == corner {
            0nat
        } else {
            1nat
        }) by {
            assert(self.binary_at(p));
            assert(!self.goes_up(depth, p, Direction::South));
            assert(!self.goes_up(depth, p, Direction::West));
            if self.open(p, Direction::North) {
                assert(self.inside(toward(p, Direction::North)));
                assert(self.goes_up(depth, p, Direction::North));
            }
            if self.open(p, Direction::East) {
                assert(self.inside(toward(p, Direction::East)));
                assert(self.goes_up(depth, p, Direction::East));
            }
        }
        assert(self.is_tree_of(members, corner, depth));
        assert(members =~= self.free_set());
        assert(self.is_tree_of(self.free_set(), corner, depth));
        self.lemma_tree_connected(members, corner, depth);
        self.lemma_tree_acyclic(members, corner, depth);
        let walls = |p: Spot|
            one_if(self.open(p, Direction::North)) + one_if(self.open(p, Direction::East));
        let cells = |p: Spot| one_if(self.free(p));
        assert forall|p: Spot| 0 <= p.0 < self.side && 0 <= p.1 < self.side implies #[trigger] cells(
            p,
        ) == 1 by {
            assert(self.inside(p));
        }
        lemma_tally_ones(cells, self.side);
        assert forall|p: Spot|
            0 <= p.0 < self.side && 0 <= p.1 < self.side && p != corner implies #[trigger] walls(p)
            == cells(p) by {
            assert(self.inside(p));
            assert(self.binary_at(p));
        }
        assert(self.binary_at(corner));
        lemma_tally_change(walls, cells, self.side, corner);
    }
}

impl<const S: usize> Maze<S> {
    /// Whether any cell of the grid is masked.
    pub fn any_masked(&self) -> (any: bool)
        requires
            self.wf(),
        ensures
            any == !self@.unmasked(),
    {
        let mut y: usize = 0;
        while y < S
            invariant
                y <= S,
                self.wf(),
                forall|p: Spot| Self::on_grid(p) && p.1 < y ==> !#[trigger] self@.masked.contains(p),
            decreases S - y,
        {
            let mut x: usize = 0;
            while x < S
                invariant
                    y < S,
                    x <= S,
                    self.wf(),
                    forall|p: Spot|
                        Self::on_grid(p) && precedes(p, (x as int, y as int))
                            ==> !#[trigger] self@.masked.contains(p),
                decreases S - x,
            {
                if self.cells[y][x].masked {
                    assert(self@.masked.contains((x as int, y as int)));
                    return true;
                }
                x += 1;
            }
            y += 1;
        }
        false
    }

    /// Gives the cell at `pos` its binary-tree walls: east in the top row,
    /// north in the last column, none in the top right corner, and elsewhere
    /// north if `north` holds and east if not.
    pub fn carve_binary(&mut self, pos: Pos, north: bool)
        requires
            old(self).wf(),
            Self::on_grid(pos@),
        ensures
            final(self).wf(),
            final(self).same_scratch(old(self)),
            final(self)@ == old(self)@.binary_cell(pos@, north),
    {
        if pos.x == S - 1 && pos.y == S - 1 {
        } else if pos.x == S - 1 || (pos.y < S - 1 && north) {
            self.carve(pos, Direction::North);
        } else {
            self.carve(pos, Direction::East);
        }
    }

    /// Carves the maze as a binary tree, drawing from `dice`.
    ///
    /// The generator takes no notice of masks: a maze with a masked cell is
    /// refused, untouched. Otherwise all walls are closed, scratch values
    /// forgotten and the end points put in opposite corners, and every cell,
    /// column by column from the bottom up, opens
    /// its north or its east wall as a coin falls; cells of the top row open
    /// east, cells of the last column north, the top right corner neither.
    /// However the coin falls, the open walls end up as a spanning tree;
    /// which one, and what is left of the dice, is given by
    /// [`binary_tree_of`].
    pub fn binary_tree(self, dice: &mut Dice) -> (made: Result<Self, Refused<S>>)
        requires
            self.wf(),
        ensures
            made is Ok <==> self@.unmasked(),
            match made {
                Ok(out) => {
                    &&& out.carved_from(&self)
                    &&& out@.binary_form()
                    &&& (out@, *final(dice)) == binary_tree_of(S as int, self@.masked, *old(dice))
                },
                Err(refused) => {
                    &&& refused.maze == self
                    &&& refused.flaw == Flaw::Masked
                    &&& *final(dice) == *old(dice)
                },
            },
    {
        if self.any_masked() {
            return Err(Refused { maze: self, flaw: Flaw::Masked });
        }
        let ghost given = self;
        let mut maze = self.clear();
        let ghost unseated = maze;
        maze.seat_ends();
        let ghost blank = maze;
        let ghost start = closed(S as int, given@.masked);
        proof {
            assert(maze@.masked =~= given@.masked);
            assert forall|p: Spot| Self::on_grid(p) implies (#[trigger] maze.cell(p)).dist is None
                && maze.cell(p).path is None by {
                assert(maze.cell(p) == unseated.cell(p));
            }
            assert(maze@.free((0int, 0int)));
            assert(maze@ == start);
        }
        let mut x: usize = 0;
        while x < S
            invariant
                x <= S,
                start.side == S,
                (maze@, *dice) == binary_grid(start, *old(dice), x as nat),
                maze.wf(),
                maze.same_scratch(&blank),
                maze@.masked == given@.masked,
                forall|p: Spot| maze@.inside(p) && p.0 < x ==> #[trigger] maze@.binary_at(p),
                forall|p: Spot| #[trigger] maze@.up.contains(p) ==> maze@.inside(p) && p.0 < x,
                forall|p: Spot| #[trigger] maze@.right.contains(p) ==> maze@.inside(p) && p.0 < x,
            decreases S - x,
        {
            let mut y: usize = 0;
            let ghost column = maze@;
            let ghost rolled = *dice;
            while y < S
                invariant
                    x < S,
                    y <= S,
                    column.side == S,
                    (maze@, *dice) == binary_column(column, rolled, x as int, y as nat),
                    maze.wf(),
                    maze.same_scratch(&blank),
                    maze@.masked == given@.masked,
                    forall|p: Spot|
                        maze@.inside(p) && (p.0 < x || (p.0 == x && p.1 < y))
                            ==> #[trigger] maze@.binary_at(p),
                    forall|p: Spot| #[trigger]
                        maze@.up.contains(p) ==> maze@.inside(p) && (p.0 < x || (p.0 == x && p.1
                            < y)),
                    forall|p: Spot| #[trigger]
                        maze@.right.contains(p) ==> maze@.inside(p) && (p.0 < x || (p.0 == x
                            && p.1 < y)),
                decreases S - y,
            {
                let north = if x < S - 1 && y < S - 1 {
                    dice.coin()
                } else {
                    false
                };
                let ghost before = maze@;
                maze.carve_binary(Pos { x, y }, north);
                proof {
                    let after = maze@;
                    assert forall|p: Spot|
                        after.inside(p) && (p.0 < x || (p.0 == x && p.1 < y + 1))
                        implies #[trigger] after.binary_at(p) by {
                        if p.0 < x || (p.0 == x && p.1 < y) {
                            assert(before.binary_at(p));
                        }
                    }
                }
                y += 1;
            }
            x += 1;
        }
        proof {
            let shape = maze@;
            assert(shape.unmasked());
            shape.lemma_binary_form_spans();
            maze.lemma_ends_seated(&blank);
        }
        Ok(maze)
    }
}

} // verus!
