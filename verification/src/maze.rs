//! The grid itself: positions, directions, cells and the maze that owns them,
//! with the bounds-checked accessors and the wall-aware connectivity queries.

use vstd::prelude::*;
use crate::shape::{Shape, Spot, closed, precedes, toward};

verus! {

/// The largest side a maze may have: with it every hop distance fits a `u32`.
pub const MAX_SIDE: usize = 0xFFFF;

/// An `(x, y)` coordinate pair; `x` counts columns eastwards, `y` rows northwards.
#[derive(Copy, Clone, Debug, PartialEq, Eq, Structural)]
pub struct Pos {
    pub x: usize,
    pub y: usize,
}

/// One of the four ways to leave a cell.
#[derive(Copy, Clone, Debug, PartialEq, Eq, Structural)]
pub enum Direction {
    North,
    East,
    South,
    West,
}

/// The state of one grid slot.
///
/// `up` and `right` say whether the walls to the north and to the east are
/// open; the walls to the south and west belong to the neighbours there.
/// `dist` and `path` are scratch values of the solver.
#[derive(Copy, Clone, Debug)]
pub struct Cell {
    pub up: bool,
    pub right: bool,
    pub dist: Option<u32>,
    pub path: Option<bool>,
    pub masked: bool,
}

/// A square maze of side `S`: `cells[y][x]` is the cell in column `x` of row `y`.
#[derive(Debug)]
pub struct Maze<const S: usize> {
    pub cells: Vec<Vec<Cell>>,
    pub start: Pos,
    pub end: Pos,
}

impl View for Pos {
    type V = Spot;

    /// The position as a pair of integers.
    open spec fn view(&self) -> Spot {
        (self.x as int, self.y as int)
    }
}

impl Pos {
    /// The position in column `x` of row `y`.
    pub fn new(x: usize, y: usize) -> (pos: Pos)
        ensures
            pos.x == x,
            pos.y == y,
    {
        Pos { x, y }
    }

    /// The position one step away in `direction`, or `None` where that step
    /// would leave the range of indices.
    pub fn shift(self, direction: Direction) -> (moved: Option<Pos>)
        ensures
            moved is Some <==> 0 <= toward(self@, direction).0 <= usize::MAX && 0 <= toward(
                self@,
                direction,
            ).1 <= usize::MAX,
            moved is Some ==> moved->0@ == toward(self@, direction),
    {
        match direction {
            Direction::North => {
                if self.y < usize::MAX {
                    Some(Pos { x: self.x, y: self.y + 1 })
                } else {
                    None
                }
            },
            Direction::East => {
                if self.x < usize::MAX {
                    Some(Pos { x: self.x + 1, y: self.y })
                } else {
                    None
                }
            },
            Direction::South => {
                if self.y > 0 {
                    Some(Pos { x: self.x, y: self.y - 1 })
                } else {
                    None
                }
            },
            Direction::West => {
                if self.x > 0 {
                    Some(Pos { x: self.x - 1, y: self.y })
                } else {
                    None
                }
            },
        }
    }
}

impl Default for Pos {
    /// The position in the bottom left corner.
    fn default() -> (pos: Pos)
        ensures
            pos.x == 0,
            pos.y == 0,
    {
        Pos { x: 0, y: 0 }
    }
}

impl Cell {
    /// A cell with both walls closed, no scratch values, not masked.
    pub open spec fn is_blank(self) -> bool {
        !self.up && !self.right && self.dist is None && self.path is None && !self.masked
    }

    /// The blank cell.
    pub open spec fn blank_spec() -> Cell {
        Cell { up: false, right: false, dist: None, path: None, masked: false }
    }

    /// A cell with both walls closed, no scratch values, not masked.
    #[verifier::when_used_as_spec(blank_spec)]
    pub fn blank() -> (cell: Cell)
        ensures
            cell == Cell::blank_spec(),
            cell.is_blank(),
    {
        Cell { up: false, right: false, dist: None, path: None, masked: false }
    }

    /// An unmasked cell with the given walls and no scratch values.
    pub fn new(up: bool, right: bool) -> (cell: Cell)
        ensures
            cell.up == up,
            cell.right == right,
            cell.dist is None,
            cell.path is None,
            !cell.masked,
    {
        Cell { up, right, dist: None, path: None, masked: false }
    }
}

impl Default for Cell {
    /// The blank cell.
    fn default() -> (cell: Cell)
        ensures
            cell.is_blank(),
    {
        Cell::blank()
    }
}

impl<const S: usize> View for Maze<S> {
    type V = Shape;

    /// The walls and the mask, without the solver's scratch values.
    open spec fn view(&self) -> Shape {
        Shape {
            side: S as int,
            up: Set::new(|p: Spot| 0 <= p.0 < S && 0 <= p.1 < S && self.cell(p).up),
            right: Set::new(|p: Spot| 0 <= p.0 < S && 0 <= p.1 < S && self.cell(p).right),
            masked: Set::new(|p: Spot| 0 <= p.0 < S && 0 <= p.1 < S && self.cell(p).masked),
        }
    }
}

impl<const S: usize> Maze<S> {
    /// The grid has `S` rows of `S` cells, `S` is within bounds, and both end
    /// points lie on the grid.
    pub open spec fn wf(&self) -> bool {
        &&& 0 < S <= MAX_SIDE
        &&& self.cells@.len() == S
        &&& forall|y: int| 0 <= y < S ==> (#[trigger] self.cells@[y])@.len() == S
        &&& self.start.x < S && self.start.y < S
        &&& self.end.x < S && self.end.y < S
    }

    /// `p` lies on the grid.
    pub open spec fn on_grid(p: Spot) -> bool {
        0 <= p.0 < S && 0 <= p.1 < S
    }

    /// The cell at `p`.
    pub open spec fn cell(&self, p: Spot) -> Cell {
        self.cells@[p.1]@[p.0]
    }

    /// Every cell but the one at `p` is the same in `self` and `other`.
    pub open spec fn same_but_at(&self, other: &Self, p: Spot) -> bool {
        &&& self.start == other.start
        &&& self.end == other.end
        &&& forall|q: Spot| Self::on_grid(q) && q != p ==> #[trigger] self.cell(q) == other.cell(q)
    }

    /// All walls closed, nothing masked, no scratch values, end points in
    /// opposite corners.
    pub open spec fn is_blank(&self) -> bool {
        &&& self.start@ == (0int, 0int)
        &&& self.end@ == (S - 1, S - 1)
        &&& forall|p: Spot| Self::on_grid(p) ==> (#[trigger] self.cell(p)).is_blank()
    }

    /// Overwrites the cell at `(x, y)`.
    pub fn set(&mut self, x: usize, y: usize, cell: Cell)
        requires
            old(self).wf(),
            x < S,
            y < S,
        ensures
            final(self).wf(),
            final(self).cell((x as int, y as int)) == cell,
            final(self).same_but_at(old(self), (x as int, y as int)),
    {
        self.cells[y][x] = cell;
    }

    /// The cell at `(x, y)`, or `None` off the grid.
    pub fn at_opt(&self, x: usize, y: usize) -> (found: Option<&Cell>)
        requires
            self.wf(),
        ensures
            found is Some <==> x < S && y < S,
            found is Some ==> *found->0 == self.cell((x as int, y as int)),
    {
        if y < S && x < S {
            Some(&self.cells[y][x])
        } else {
            None
        }
    }

    /// The cell at `pos`.
    pub fn at_pos(&self, pos: Pos) -> (cell: &Cell)
        requires
            self.wf(),
            Self::on_grid(pos@),
        ensures
            *cell == self.cell(pos@),
    {
        &self.cells[pos.y][pos.x]
    }

    /// The cell at `pos`, to be changed in place; no other cell changes.
    pub fn at_pos_mut(&mut self, pos: Pos) -> (cell: &mut Cell)
        requires
            old(self).wf(),
            Self::on_grid(pos@),
        ensures
            *cell == old(self).cell(pos@),
            final(self).wf(),
            final(self).cell(pos@) == *final(cell),
            final(self).same_but_at(old(self), pos@),
    {
        &mut self.cells[pos.y][pos.x]
    }

    /// The cell at `pos`, or `None` off the grid.
    pub fn at_pos_opt(&self, pos: Pos) -> (found: Option<&Cell>)
        requires
            self.wf(),
        ensures
            found is Some <==> Self::on_grid(pos@),
            found is Some ==> *found->0 == self.cell(pos@),
    {
        self.at_opt(pos.x, pos.y)
    }

    /// The cell at `(x, y)`.
    pub fn at(&self, x: usize, y: usize) -> (cell: &Cell)
        requires
            self.wf(),
            x < S,
            y < S,
        ensures
            *cell == self.cell((x as int, y as int)),
    {
        &self.cells[y][x]
    }

    /// The cell at `(x, y)`, to be changed in place; no other cell changes.
    pub fn at_mut(&mut self, x: usize, y: usize) -> (cell: &mut Cell)
        requires
            old(self).wf(),
            x < S,
            y < S,
        ensures
            *cell == old(self).cell((x as int, y as int)),
            final(self).wf(),
            final(self).cell((x as int, y as int)) == *final(cell),
            final(self).same_but_at(old(self), (x as int, y as int)),
    {
        &mut self.cells[y][x]
    }

    /// Whether the wall between `(x, y)` and its neighbour in `direction` is
    /// open; `false` at the border of the grid.
    pub fn can_go(&self, x: usize, y: usize, direction: Direction) -> (open: bool)
        requires
            self.wf(),
            x < S,
            y < S,
        ensures
            open == self@.open((x as int, y as int), direction),
    {
        match direction {
            Direction::North => y < S - 1 && self.cells[y][x].up,
            Direction::East => x < S - 1 && self.cells[y][x].right,
            Direction::South => y > 0 && self.cells[y - 1][x].up,
            Direction::West => x > 0 && self.cells[y][x - 1].right,
        }
    }

    /// The neighbour of `(x, y)` in `direction` if it is on the grid and not
    /// masked, whatever the walls; `None` otherwise.
    pub fn step(&self, x: usize, y: usize, direction: Direction) -> (next: Option<(usize, usize)>)
        requires
            self.wf(),
            x < S,
            y < S,
        ensures
            next is Some <==> self@.may_step((x as int, y as int), direction),
            next is Some ==> ({
                let q = next->0;
                (q.0 as int, q.1 as int) == toward((x as int, y as int), direction)
            }),
    {
        let (nx, ny) = match direction {
            Direction::South => {
                if y == 0 {
                    return None;
                }
                (x, y - 1)
            },
            Direction::West => {
                if x == 0 {
                    return None;
                }
                (x - 1, y)
            },
            Direction::North => {
                if y >= S - 1 {
                    return None;
                }
                (x, y + 1)
            },
            Direction::East => {
                if x >= S - 1 {
                    return None;
                }
                (x + 1, y)
            },
        };
        if self.cells[ny][nx].masked {
            return None;
        }
        Some((nx, ny))
    }
}

impl<const S: usize> Default for Maze<S> {
    /// A blank maze: `S` rows of `S` cells, all walls closed, nothing masked,
    /// the start point in the bottom left and the end point in the top right
    /// corner. It is well formed where `S` is neither zero nor above
    /// [`MAX_SIDE`].
    fn default() -> (maze: Self)
        ensures
            maze.cells@.len() == S,
            forall|y: int| 0 <= y < S ==> (#[trigger] maze.cells@[y])@.len() == S,
            forall|p: Spot| Self::on_grid(p) ==> (#[trigger] maze.cell(p)).is_blank(),
            maze.start@ == (0int, 0int),
            maze.end@ == if S == 0 {
                (0int, 0int)
            } else {
                (S - 1, S - 1)
            },
            0 < S <= MAX_SIDE ==> maze.wf() && maze.is_blank(),
            maze@ == closed(S as int, Set::empty()),
    {
        let mut cells: Vec<Vec<Cell>> = Vec::new();
        let mut y: usize = 0;
        while y < S
            invariant
                y <= S,
                cells@.len() == y,
                forall|j: int| 0 <= j < y ==> (#[trigger] cells@[j])@.len() == S,
                forall|j: int, i: int|
                    0 <= j < y && 0 <= i < S ==> (#[trigger] cells@[j]@[i]).is_blank(),
            decreases S - y,
        {
            let mut row: Vec<Cell> = Vec::new();
            let mut x: usize = 0;
            while x < S
                invariant
                    x <= S,
                    row@.len() == x,
                    forall|i: int| 0 <= i < x ==> (#[trigger] row@[i]).is_blank(),
                decreases S - x,
            {
                row.push(Cell::blank());
                x += 1;
            }
            cells.push(row);
            y += 1;
        }
        let corner = if S == 0 {
            0
        } else {
            S - 1
        };
        let maze = Maze { cells, start: Pos { x: 0, y: 0 }, end: Pos { x: corner, y: corner } };
        proof {
            assert forall|p: Spot| Self::on_grid(p) implies (#[trigger] maze.cell(p)).is_blank() by {
                assert(maze.cells@[p.1]@[p.0].is_blank());
            }
            let want = closed(S as int, Set::empty());
            assert(maze@.up =~= want.up);
            assert(maze@.right =~= want.right);
            assert(maze@.masked =~= want.masked);
        }
        maze
    }
}

impl<const S: usize> Maze<S> {
    /// Every cell holds the same distance and path flag in `self` and
    /// `other`, and the end points are the same.
    pub open spec fn same_scratch(&self, other: &Self) -> bool {
        &&& self.start == other.start
        &&& self.end == other.end
        &&& forall|p: Spot|
            Self::on_grid(p) ==> (#[trigger] self.cell(p)).dist == other.cell(p).dist
                && self.cell(p).path == other.cell(p).path
    }

    /// Opens the wall between `pos` and its neighbour in `direction`. Between
    /// two free cells this keeps the maze tidy.
    pub fn carve(&mut self, pos: Pos, direction: Direction)
        requires
            old(self).wf(),
            Self::on_grid(pos@),
            Self::on_grid(toward(pos@, direction)),
        ensures
            final(self).wf(),
            final(self)@ == old(self)@.joined(pos@, direction),
            final(self).same_scratch(old(self)),
            old(self)@.tidy() && old(self)@.free(pos@) && old(self)@.free(toward(pos@, direction))
                ==> final(self)@.tidy(),
    {
        match direction {
            Direction::North => {
                self.cells[pos.y][pos.x].up = true;
            },
            Direction::East => {
                self.cells[pos.y][pos.x].right = true;
            },
            Direction::South => {
                self.cells[pos.y - 1][pos.x].up = true;
            },
            Direction::West => {
                self.cells[pos.y][pos.x - 1].right = true;
            },
        }
        proof {
            let want = old(self)@.joined(pos@, direction);
            assert(self@.up =~= want.up);
            assert(self@.right =~= want.right);
            assert(self@.masked =~= want.masked);
            if old(self)@.tidy() && old(self)@.free(pos@) && old(self)@.free(
                toward(pos@, direction),
            ) {
                old(self)@.lemma_joined_tidy(pos@, direction);
            }
        }
    }

    /// Sets or clears the masked flag of the cell at `(x, y)`. A cell that
    /// becomes masked has its four walls closed, so that no open wall ever
    /// touches a masked cell: a tidy maze stays tidy.
    pub fn set_masked(&mut self, x: usize, y: usize, masked: bool)
        requires
            old(self).wf(),
            x < S,
            y < S,
        ensures
            final(self).wf(),
            final(self)@ == old(self)@.with_mask((x as int, y as int), masked),
            final(self).same_scratch(old(self)),
            old(self)@.tidy() ==> final(self)@.tidy(),
    {
        self.cells[y][x].masked = masked;
        if masked {
            self.cells[y][x].up = false;
            self.cells[y][x].right = false;
            if y > 0 {
                self.cells[y - 1][x].up = false;
            }
            if x > 0 {
                self.cells[y][x - 1].right = false;
            }
        }
        proof {
            let want = old(self)@.with_mask((x as int, y as int), masked);
            assert(self@.up =~= want.up);
            assert(self@.right =~= want.right);
            assert(self@.masked =~= want.masked);
            if old(self)@.tidy() {
                old(self)@.lemma_with_mask_tidy((x as int, y as int), masked);
            }
        }
    }

    /// Forgets distances and path flags; walls, mask and end points stay.
    pub fn clear_path(self) -> (out: Self)
        requires
            self.wf(),
        ensures
            out.wf(),
            out.start == self.start,
            out.end == self.end,
            forall|p: Spot|
                Self::on_grid(p) ==> #[trigger] out.cell(p) == (Cell {
                    dist: None,
                    path: None,
                    ..self.cell(p)
                }),
    {
        let mut maze = self;
        let mut y: usize = 0;
        while y < S
            invariant
                y <= S,
                maze.wf(),
                maze.start == self.start,
                maze.end == self.end,
                forall|p: Spot|
                    Self::on_grid(p) ==> #[trigger] maze.cell(p) == if p.1 < y {
                        (Cell { dist: None, path: None, ..self.cell(p) })
                    } else {
                        self.cell(p)
                    },
            decreases S - y,
        {
            let mut x: usize = 0;
            while x < S
                invariant
                    y < S,
                    x <= S,
                    maze.wf(),
                    maze.start == self.start,
                    maze.end == self.end,
                    forall|p: Spot|
                        Self::on_grid(p) ==> #[trigger] maze.cell(p) == if p.1 < y || (p.1 == y
                            && p.0 < x) {
                            (Cell { dist: None, path: None, ..self.cell(p) })
                        } else {
                            self.cell(p)
                        },
                decreases S - x,
            {
                let cell = maze.cells[y][x];
                maze.set(x, y, Cell { dist: None, path: None, ..cell });
                x += 1;
            }
            y += 1;
        }
        maze
    }

    /// Closes every wall and forgets distances and path flags; the end points
    /// go back to opposite corners. The mask stays.
    pub fn clear(self) -> (out: Self)
        requires
            self.wf(),
        ensures
            out.wf(),
            out.start@ == (0int, 0int),
            out.end@ == (S - 1, S - 1),
            forall|p: Spot|
                Self::on_grid(p) ==> #[trigger] out.cell(p) == (Cell {
                    masked: self.cell(p).masked,
                    ..Cell::blank_spec()
                }),
            out@ == closed(S as int, self@.masked),
    {
        let mut maze = self;
        maze.start = Pos { x: 0, y: 0 };
        maze.end = Pos { x: S - 1, y: S - 1 };
        let mut y: usize = 0;
        while y < S
            invariant
                y <= S,
                maze.wf(),
                self.wf(),
                maze.start@ == (0int, 0int),
                maze.end@ == (S - 1, S - 1),
                forall|p: Spot|
                    Self::on_grid(p) ==> #[trigger] maze.cell(p) == if p.1 < y {
                        (Cell { masked: self.cell(p).masked, ..Cell::blank_spec() })
                    } else {
                        self.cell(p)
                    },
            decreases S - y,
        {
            let mut x: usize = 0;
            while x < S
                invariant
                    y < S,
                    x <= S,
                    maze.wf(),
                    self.wf(),
                    maze.start@ == (0int, 0int),
                    maze.end@ == (S - 1, S - 1),
                    forall|p: Spot|
                        Self::on_grid(p) ==> #[trigger] maze.cell(p) == if p.1 < y || (p.1 == y
                            && p.0 < x) {
                            (Cell { masked: self.cell(p).masked, ..Cell::blank_spec() })
                        } else {
                            self.cell(p)
                        },
                decreases S - x,
            {
                let masked = maze.cells[y][x].masked;
                maze.set(x, y, Cell { up: false, right: false, dist: None, path: None, masked });
                x += 1;
            }
            y += 1;
        }
        proof {
            let want = closed(S as int, self@.masked);
            assert(maze@.up =~= want.up);
            assert(maze@.right =~= want.right);
            assert(maze@.masked =~= want.masked);
        }
        maze
    }

    /// Every position of the grid in row-major order: `(x, y)` stands at
    /// index `y * S + x`.
    pub fn all_pos() -> (all: Vec<Pos>)
        requires
            S <= MAX_SIDE,
        ensures
            all@.len() == S * S,
            forall|p: Spot| Self::on_grid(p) ==> (#[trigger] all@[p.1 * S + p.0])@ == p,
    {
        let mut all: Vec<Pos> = Vec::new();
        let mut y: usize = 0;
        while y < S
            invariant
                y <= S,
                all@.len() == y * S,
                forall|p: Spot|
                    Self::on_grid(p) && p.1 < y ==> (#[trigger] all@[p.1 * S + p.0])@ == p,
            decreases S - y,
        {
            let mut x: usize = 0;
            while x < S
                invariant
                    y < S,
                    x <= S,
                    all@.len() == y * S + x,
                    forall|p: Spot|
                        Self::on_grid(p) && (p.1 < y || (p.1 == y && p.0 < x)) ==> (
                        #[trigger] all@[p.1 * S + p.0])@ == p,
                decreases S - x,
            {
                proof {
                    assert forall|p: Spot|
                        Self::on_grid(p) && (p.1 < y || (p.1 == y && p.0 < x)) implies p.1 * S
                        + p.0 < y * S + x by {
                        lemma_row_major(p, (x as int, y as int), S as int);
                    }
                }
                all.push(Pos { x, y });
                x += 1;
            }
            proof {
                assert((y + 1) * S == y * S + S) by (nonlinear_arith);
            }
            y += 1;
        }
        all
    }

    /// Every cell of the grid in row-major order: the cell at `(x, y)`
    /// stands at index `y * S + x`.
    pub fn all_cells(&self) -> (all: Vec<Cell>)
        requires
            self.wf(),
        ensures
            all@.len() == S * S,
            forall|p: Spot| Self::on_grid(p) ==> #[trigger] all@[p.1 * S + p.0] == self.cell(p),
    {
        let mut all: Vec<Cell> = Vec::new();
        let mut y: usize = 0;
        while y < S
            invariant
                y <= S,
                self.wf(),
                all@.len() == y * S,
                forall|p: Spot|
                    Self::on_grid(p) && p.1 < y ==> #[trigger] all@[p.1 * S + p.0] == self.cell(p),
            decreases S - y,
        {
            let mut x: usize = 0;
            while x < S
                invariant
                    y < S,
                    x <= S,
                    self.wf(),
                    all@.len() == y * S + x,
                    forall|p: Spot|
                        Self::on_grid(p) && (p.1 < y || (p.1 == y && p.0 < x))
                            ==> #[trigger] all@[p.1 * S + p.0] == self.cell(p),
                decreases S - x,
            {
                proof {
                    assert forall|p: Spot|
                        Self::on_grid(p) && (p.1 < y || (p.1 == y && p.0 < x)) implies p.1 * S
                        + p.0 < y * S + x by {
                        lemma_row_major(p, (x as int, y as int), S as int);
                    }
                }
                all.push(self.cells[y][x]);
                x += 1;
            }
            proof {
                assert((y + 1) * S == y * S + S) by (nonlinear_arith);
            }
            y += 1;
        }
        all
    }
}

/// Row-major indices follow row-major order.
pub proof fn lemma_row_major(p: Spot, q: Spot, side: int)
    requires
        0 <= p.0 < side,
        0 <= q.0 < side,
        0 <= p.1,
        0 <= q.1,
        precedes(p, q),
    ensures
        0 <= p.1 * side + p.0 < q.1 * side + q.0,
{
    assert(0 <= p.1 * side) by (nonlinear_arith)
        requires
            0 <= p.1,
            0 < side,
    ;
    if p.1 < q.1 {
        assert((p.1 + 1) * side <= q.1 * side) by (nonlinear_arith)
            requires
                p.1 + 1 <= q.1,
                0 < side,
        ;
        assert((p.1 + 1) * side == p.1 * side + side) by (nonlinear_arith);
    }
}

} // verus!
