//! A tree that grows over the free cells of a maze, one leaf at a time. The
//! hunt-and-kill and the loop-erased-walk generators are both built on it.

use vstd::prelude::*;
use crate::maze::{Direction, Maze, Pos};
use crate::shape::{Shape, Spot, closed, precedes, toward};
use crate::tally::{tally, lemma_tally_bound, lemma_tally_change, lemma_tally_same};
use crate::tree::one_if;

verus! {

/// A maze under construction together with the cells that its tree has
/// reached so far.
pub struct Growth<const S: usize> {
    /// The maze; its open walls form a tree over the known cells.
    pub maze: Maze<S>,
    /// `known[y][x]` says whether the tree has reached the cell at `(x, y)`.
    pub known: Vec<Vec<bool>>,
    /// The cell the tree started from.
    pub root: Pos,
    /// The depth of every known cell below the root.
    pub depth: Ghost<Map<Spot, nat>>,
}

/// The model of a growing tree: the shape of the maze and the cells that the
/// tree has reached.
#[verifier::ext_equal]
pub struct Sprout {
    pub shape: Shape,
    pub known: Set<Spot>,
}

/// `d` alone if `keep` holds, nothing otherwise.
pub open spec fn only_if(keep: bool, d: Direction) -> Seq<Direction> {
    if keep {
        seq![d]
    } else {
        Seq::empty()
    }
}

impl Sprout {
    /// `p` is free and the tree has not reached it yet.
    pub open spec fn pending(self, p: Spot) -> bool {
        self.shape.free(p) && !self.known.contains(p)
    }

    /// The neighbour of `p` in direction `d` is a cell of the tree.
    pub open spec fn touches(self, p: Spot, d: Direction) -> bool {
        self.known.contains(toward(p, d))
    }

    /// The first of north, west, south, east in which `p` has a neighbour in
    /// the tree.
    pub open spec fn first_touch(self, p: Spot) -> Option<Direction> {
        if self.touches(p, Direction::North) {
            Some(Direction::North)
        } else if self.touches(p, Direction::West) {
            Some(Direction::West)
        } else if self.touches(p, Direction::South) {
            Some(Direction::South)
        } else if self.touches(p, Direction::East) {
            Some(Direction::East)
        } else {
            None
        }
    }

    /// `p` is pending and has a neighbour in the tree.
    pub open spec fn on_fringe(self, p: Spot) -> bool {
        self.pending(p) && self.first_touch(p) is Some
    }

    /// `p` is the first cell on the fringe in row-major order.
    pub open spec fn heads_fringe(self, p: Spot) -> bool {
        &&& self.shape.inside(p)
        &&& self.on_fringe(p)
        &&& forall|q: Spot| self.shape.inside(q) && precedes(q, p) ==> !#[trigger] self.on_fringe(q)
    }

    /// The cell that the hunt finds and the direction in which it is joined
    /// to the tree: the first cell on the fringe in row-major order, and the
    /// first direction in which it touches the tree.
    pub open spec fn hunted(self) -> Option<(Spot, Direction)> {
        if exists|p: Spot| self.heads_fringe(p) {
            let p = choose|p: Spot| self.heads_fringe(p);
            Some((p, self.first_touch(p)->0))
        } else {
            None
        }
    }

    /// `p` is the first pending cell in row-major order.
    pub open spec fn heads_pending(self, p: Spot) -> bool {
        &&& self.shape.inside(p)
        &&& self.pending(p)
        &&& forall|q: Spot| self.shape.inside(q) && precedes(q, p) ==> !#[trigger] self.pending(q)
    }

    /// The first pending cell in row-major order, if any.
    pub open spec fn first_pending(self) -> Option<Spot> {
        if exists|p: Spot| self.heads_pending(p) {
            Some(choose|p: Spot| self.heads_pending(p))
        } else {
            None
        }
    }

    /// The neighbour of `at` in direction `d` is pending.
    pub open spec fn fresh_at(self, at: Spot, d: Direction) -> bool {
        self.shape.may_step(at, d) && self.pending(toward(at, d))
    }

    /// The directions, in the order north, west, south, east, in which `at`
    /// has a pending neighbour.
    pub open spec fn fresh_dirs(self, at: Spot) -> Seq<Direction> {
        only_if(self.fresh_at(at, Direction::North), Direction::North) + only_if(
            self.fresh_at(at, Direction::West),
            Direction::West,
        ) + only_if(self.fresh_at(at, Direction::South), Direction::South) + only_if(
            self.fresh_at(at, Direction::East),
            Direction::East,
        )
    }

    /// The tree after `leaf` has been joined to its neighbour in direction
    /// `d`.
    pub open spec fn attached(self, leaf: Spot, d: Direction) -> Sprout {
        Sprout { shape: self.shape.joined(leaf, d), known: self.known.insert(leaf) }
    }

    /// Only one cell heads the fringe.
    pub proof fn lemma_heads_fringe(self, p: Spot)
        requires
            self.heads_fringe(p),
        ensures
            self.hunted() == Some((p, self.first_touch(p)->0)),
    {
        let q = choose|q: Spot| self.heads_fringe(q);
        if p != q {
            assert(precedes(p, q) || precedes(q, p));
        }
    }

    /// Only one cell heads the pending cells.
    pub proof fn lemma_heads_pending(self, p: Spot)
        requires
            self.heads_pending(p),
        ensures
            self.first_pending() == Some(p),
    {
        let q = choose|q: Spot| self.heads_pending(q);
        if p != q {
            assert(precedes(p, q) || precedes(q, p));
        }
    }
}

/// The tree that consists of the first free cell of a grid of side `side`
/// with mask `masked` and all walls closed.
pub open spec fn seedling(side: int, masked: Set<Spot>) -> Sprout {
    Sprout { shape: closed(side, masked), known: set![closed(side, masked).first_free()] }
}

impl<const S: usize> View for Growth<S> {
    type V = Sprout;

    /// The shape of the maze and the cells of the tree.
    open spec fn view(&self) -> Sprout {
        Sprout { shape: self.maze@, known: self.members() }
    }
}

impl Direction {
    /// The direction that undoes this one.
    pub fn opposite(self) -> (back: Direction)
        ensures
            back == self.flip(),
    {
        match self {
            Direction::North => Direction::South,
            Direction::East => Direction::West,
            Direction::South => Direction::North,
            Direction::West => Direction::East,
        }
    }
}

impl<const S: usize> Growth<S> {
    /// The tree has reached `p`.
    pub open spec fn is_known(&self, p: Spot) -> bool {
        self.known@[p.1]@[p.0]
    }

    /// The cells the tree has reached.
    pub open spec fn members(&self) -> Set<Spot> {
        Set::new(|p: Spot| Maze::<S>::on_grid(p) && self.is_known(p))
    }

    /// The number of cells the tree has reached.
    pub open spec fn size(&self) -> nat {
        tally(|p: Spot| one_if(self.is_known(p)), S as int)
    }

    /// `p` is free and the tree has not reached it yet.
    pub open spec fn pending(&self, p: Spot) -> bool {
        self@.pending(p)
    }

    /// The neighbour of `p` in direction `d` is a cell of the tree.
    pub open spec fn touches(&self, p: Spot, d: Direction) -> bool {
        self@.touches(p, d)
    }

    /// The first of north, west, south, east in which `p` has a neighbour in
    /// the tree.
    pub open spec fn first_touch(&self, p: Spot) -> Option<Direction> {
        self@.first_touch(p)
    }

    /// `p` is pending and has a neighbour in the tree.
    pub open spec fn on_fringe(&self, p: Spot) -> bool {
        self@.on_fringe(p)
    }

    /// The maze is well formed and `known` has a flag for every cell.
    pub open spec fn sized(&self) -> bool {
        &&& self.maze.wf()
        &&& self.known@.len() == S
        &&& forall|y: int| 0 <= y < S ==> (#[trigger] self.known@[y])@.len() == S
    }

    /// The open walls of the maze are a tree over the known cells, all of
    /// them free, rooted at `root`; no other wall flag is set.
    pub open spec fn wf(&self) -> bool {
        &&& self.sized()
        &&& Maze::<S>::on_grid(self.root@)
        &&& self.maze@.is_tree_of(self.members(), self.root@, self.depth@)
        &&& forall|p: Spot| #[trigger] self.members().contains(p) ==> self.maze@.free(p)
        &&& self.maze@.edges() + 1 == self.size()
        &&& self.maze@.tidy()
    }

    /// The tree has reached every free cell.
    pub open spec fn complete(&self) -> bool {
        forall|p: Spot| Maze::<S>::on_grid(p) ==> !#[trigger] self.pending(p)
    }

    /// The tree never holds more cells than the grid.
    pub proof fn lemma_size_bound(&self)
        requires
            0 < S,
        ensures
            self.size() <= S * S,
    {
        let f = |p: Spot| one_if(self.is_known(p));
        assert forall|p: Spot| 0 <= p.0 < S && 0 <= p.1 < S implies #[trigger] f(p) <= 1 by {}
        lemma_tally_bound(f, S as int, 1);
        assert(1 * (S as int) * (S as int) == S * S) by (nonlinear_arith);
    }

    /// A complete tree is a spanning tree of the maze.
    pub proof fn lemma_complete_spans(&self)
        requires
            self.wf(),
            self.complete(),
        ensures
            self.maze@.is_spanning_tree(),
            self.maze@.rooted(),
    {
        let shape = self.maze@;
        let f = |p: Spot| one_if(self.is_known(p));
        let g = |p: Spot| one_if(shape.free(p));
        assert forall|p: Spot| 0 <= p.0 < S && 0 <= p.1 < S implies #[trigger] f(p) == g(p) by {
            if self.is_known(p) {
                assert(self.members().contains(p));
            } else {
                assert(!self.pending(p));
            }
        }
        lemma_tally_same(f, g, S as int);
        assert forall|p: Spot| shape.free(p) implies self.members().contains(p) by {
            assert(!self.pending(p));
        }
        shape.lemma_tree_connected(self.members(), self.root@, self.depth@);
        shape.lemma_tree_acyclic(self.members(), self.root@, self.depth@);
        assert(self.members() =~= shape.free_set());
        assert(shape.is_tree_of(shape.free_set(), self.root@, self.depth@));
    }

    /// While a free cell is pending that the root can reach by steps over
    /// free cells, some pending cell has a neighbour in the tree.
    pub proof fn lemma_fringe_exists(&self, target: Spot, n: nat) -> (at: Spot)
        requires
            self.wf(),
            self.maze@.lattice().walk(self.root@, target, n),
            self.pending(target),
        ensures
            self.on_fringe(at),
        decreases n,
    {
        let lattice = self.maze@.lattice();
        assert(self.members().contains(self.root@));
        if n == 0 {
            target
        } else {
            let d = choose|d: Direction| #[trigger]
                lattice.open(target, d) && lattice.walk(self.root@, toward(target, d), (n - 1) as nat);
            let q = toward(target, d);
            assert(self.maze@.free(q));
            if self.is_known(q) {
                assert(self.touches(target, d));
                target
            } else {
                self.lemma_fringe_exists(q, (n - 1) as nat)
            }
        }
    }

    /// Starts a tree at `root` in a maze whose walls are all closed.
    pub fn begin(maze: Maze<S>, root: Pos) -> (growth: Self)
        requires
            maze.wf(),
            maze@.free(root@),
            forall|p: Spot| Maze::<S>::on_grid(p) ==> !(#[trigger] maze.cell(p)).up && !maze.cell(p).right,
        ensures
            growth.wf(),
            growth.maze == maze,
            growth.root == root,
            growth.members() == set![root@],
            growth@ == (Sprout { shape: maze@, known: set![root@] }),
            growth.size() == 1,
    {
        let mut known: Vec<Vec<bool>> = Vec::new();
        let mut y: usize = 0;
        while y < S
            invariant
                y <= S,
                known@.len() == y,
                forall|j: int| 0 <= j < y ==> (#[trigger] known@[j])@.len() == S,
                forall|j: int, i: int| 0 <= j < y && 0 <= i < S ==> !(#[trigger] known@[j]@[i]),
            decreases S - y,
        {
            let mut row: Vec<bool> = Vec::new();
            let mut x: usize = 0;
            while x < S
                invariant
                    x <= S,
                    row@.len() == x,
                    forall|i: int| 0 <= i < x ==> !(#[trigger] row@[i]),
                decreases S - x,
            {
                row.push(false);
                x += 1;
            }
            known.push(row);
            y += 1;
        }
        let ghost none = known;
        known[root.y][root.x] = true;
        let growth = Growth { maze, known, root, depth: Ghost(Map::empty().insert(root@, 0nat)) };
        proof {
            let shape = maze@;
            assert(growth.members() =~= set![root@]);
            let zero = |p: Spot| one_if(none@[p.1]@[p.0]);
            let one = |p: Spot| one_if(growth.is_known(p));
            assert forall|p: Spot| 0 <= p.0 < S && 0 <= p.1 < S implies #[trigger] zero(p) <= 0 by {
                assert(!none@[p.1]@[p.0]);
            }
            lemma_tally_bound(zero, S as int, 0);
            assert(0 * (S as int) * (S as int) == 0) by (nonlinear_arith);
            lemma_tally_change(zero, one, S as int, root@);
            let walls = |p: Spot|
                one_if(shape.open(p, Direction::North)) + one_if(shape.open(p, Direction::East));
            assert forall|p: Spot| 0 <= p.0 < S && 0 <= p.1 < S implies #[trigger] walls(p) <= 0 by {
                assert(!maze.cell(p).up && !maze.cell(p).right);
            }
            lemma_tally_bound(walls, S as int, 0);
            assert forall|p: Spot, d: Direction| !shape.open(p, d) by {
                if shape.open(p, d) {
                    match d {
                        Direction::North => {
                            assert(!maze.cell(p).up);
                        },
                        Direction::East => {
                            assert(!maze.cell(p).right);
                        },
                        Direction::South => {
                            assert(!maze.cell((p.0, p.1 - 1)).up);
                        },
                        Direction::West => {
                            assert(!maze.cell((p.0 - 1, p.1)).right);
                        },
                    }
                }
            }
            assert(shape.tidy()) by {
                assert forall|p: Spot| #[trigger] shape.up.contains(p) implies false by {
                    assert(!maze.cell(p).up);
                }
                assert forall|p: Spot| #[trigger] shape.right.contains(p) implies false by {
                    assert(!maze.cell(p).right);
                }
            }
        }
        growth
    }

    /// Hangs the pending cell `leaf` onto the tree: the wall towards its
    /// neighbour in `direction`, a cell of the tree, is opened.
    pub fn attach(&mut self, leaf: Pos, direction: Direction)
        requires
            old(self).wf(),
            Maze::<S>::on_grid(leaf@),
            old(self).pending(leaf@),
            old(self).touches(leaf@, direction),
        ensures
            final(self).wf(),
            final(self).maze@ == old(self).maze@.joined(leaf@, direction),
            final(self)@ == old(self)@.attached(leaf@, direction),
            final(self).maze.same_scratch(&old(self).maze),
            final(self).root == old(self).root,
            final(self).members() == old(self).members().insert(leaf@),
            final(self).size() == old(self).size() + 1,
            forall|p: Spot|
                Maze::<S>::on_grid(p) ==> #[trigger] final(self).is_known(p) == (p == leaf@ || old(
                    self,
                ).is_known(p)),
    {
        let ghost before = *self;
        let ghost host = toward(leaf@, direction);
        proof {
            assert(before.members().contains(host));
            before.maze@.lemma_attach_leaf(
                before.members(),
                before.root@,
                before.depth@,
                leaf@,
                direction,
            );
        }
        self.maze.carve(leaf, direction);
        self.known[leaf.y][leaf.x] = true;
        self.depth = Ghost(before.depth@.insert(leaf@, before.depth@[host] + 1));
        proof {
            assert(self.members() =~= before.members().insert(leaf@));
            let f = |p: Spot| one_if(before.is_known(p));
            let g = |p: Spot| one_if(self.is_known(p));
            lemma_tally_change(f, g, S as int, leaf@);
            let shape = self.maze@;
            assert(shape.tidy()) by {
                assert(before.maze@.free(host));
                assert forall|p: Spot| #[trigger] shape.up.contains(p) implies shape.free(p)
                    && shape.free((p.0, p.1 + 1)) by {
                    if !before.maze@.up.contains(p) {
                    }
                }
                assert forall|p: Spot| #[trigger] shape.right.contains(p) implies shape.free(p)
                    && shape.free((p.0 + 1, p.1)) by {
                    if !before.maze@.right.contains(p) {
                    }
                }
            }
        }
    }

    /// A cell on the fringe that no cell on the fringe precedes is the one
    /// the hunt finds.
    proof fn lemma_hunted(&self, p: Spot)
        requires
            Maze::<S>::on_grid(p),
            self.on_fringe(p),
            forall|q: Spot| Maze::<S>::on_grid(q) && precedes(q, p) ==> !#[trigger] self.on_fringe(q),
        ensures
            self@.hunted() == Some((p, self.first_touch(p)->0)),
    {
        assert forall|q: Spot| self@.shape.inside(q) && precedes(q, p) implies !self@.on_fringe(
            q,
        ) by {
            assert(Maze::<S>::on_grid(q));
            assert(!self.on_fringe(q));
        }
        assert(self@.heads_fringe(p));
        self@.lemma_heads_fringe(p);
    }

    /// Without a cell on the fringe the hunt finds nothing.
    proof fn lemma_none_hunted(&self)
        requires
            forall|q: Spot| Maze::<S>::on_grid(q) ==> !#[trigger] self.on_fringe(q),
        ensures
            self@.hunted() is None,
    {
        if exists|p: Spot| self@.heads_fringe(p) {
            let p = choose|p: Spot| self@.heads_fringe(p);
            assert(Maze::<S>::on_grid(p));
            assert(self.on_fringe(p));
        }
    }

    /// A pending cell that no pending cell precedes is the first.
    proof fn lemma_first_pending(&self, p: Spot)
        requires
            Maze::<S>::on_grid(p),
            self.pending(p),
            forall|q: Spot| Maze::<S>::on_grid(q) && precedes(q, p) ==> !#[trigger] self.pending(q),
        ensures
            self@.first_pending() == Some(p),
    {
        assert forall|q: Spot| self@.shape.inside(q) && precedes(q, p) implies !self@.pending(
            q,
        ) by {
            assert(Maze::<S>::on_grid(q));
            assert(!self.pending(q));
        }
        assert(self@.heads_pending(p));
        self@.lemma_heads_pending(p);
    }

    /// Without a pending cell there is no first one.
    proof fn lemma_none_pending(&self)
        requires
            forall|q: Spot| Maze::<S>::on_grid(q) ==> !#[trigger] self.pending(q),
        ensures
            self@.first_pending() is None,
    {
        if exists|p: Spot| self@.heads_pending(p) {
            let p = choose|p: Spot| self@.heads_pending(p);
            assert(Maze::<S>::on_grid(p));
            assert(self.pending(p));
        }
    }

    /// The first direction, of north, west, south and east, in which the
    /// cell at `pos` has a neighbour in the tree.
    pub fn touch(&self, pos: Pos) -> (found: Option<Direction>)
        requires
            self.sized(),
            Maze::<S>::on_grid(pos@),
        ensures
            found == self.first_touch(pos@),
    {
        if pos.y + 1 < S && self.known[pos.y + 1][pos.x] {
            Some(Direction::North)
        } else if pos.x > 0 && self.known[pos.y][pos.x - 1] {
            Some(Direction::West)
        } else if pos.y > 0 && self.known[pos.y - 1][pos.x] {
            Some(Direction::South)
        } else if pos.x + 1 < S && self.known[pos.y][pos.x + 1] {
            Some(Direction::East)
        } else {
            None
        }
    }

    /// The first pending cell in row-major order that has a neighbour in the
    /// tree, with the first direction in which it has one.
    pub fn hunt(&self) -> (found: Option<(Pos, Direction)>)
        requires
            self.sized(),
        ensures
            match found {
                Some((leaf, direction)) => {
                    &&& Maze::<S>::on_grid(leaf@)
                    &&& self.pending(leaf@)
                    &&& self.first_touch(leaf@) == Some(direction)
                    &&& forall|q: Spot|
                        Maze::<S>::on_grid(q) && precedes(q, leaf@) ==> !#[trigger] self.on_fringe(q)
                    &&& self@.hunted() == Some((leaf@, direction))
                },
                None => self@.hunted() is None && forall|q: Spot|
                    Maze::<S>::on_grid(q) ==> !#[trigger] self.on_fringe(q),
            },
    {
        let mut y: usize = 0;
        while y < S
            invariant
                y <= S,
                self.sized(),
                forall|q: Spot| Maze::<S>::on_grid(q) && q.1 < y ==> !#[trigger] self.on_fringe(q),
            decreases S - y,
        {
            let mut x: usize = 0;
            while x < S
                invariant
                    y < S,
                    x <= S,
                    self.sized(),
                    forall|q: Spot|
                        Maze::<S>::on_grid(q) && precedes(q, (x as int, y as int))
                            ==> !#[trigger] self.on_fringe(q),
                decreases S - x,
            {
                if !self.maze.cells[y][x].masked && !self.known[y][x] {
                    let pos = Pos { x, y };
                    match self.touch(pos) {
                        Some(direction) => {
                            proof {
                                self.lemma_hunted(pos@);
                            }
                            return Some((pos, direction));
                        },
                        None => {},
                    }
                }
                x += 1;
            }
            y += 1;
        }
        proof {
            self.lemma_none_hunted();
        }
        None
    }

    /// The first pending cell in row-major order.
    pub fn first_pending(&self) -> (found: Option<Pos>)
        requires
            self.sized(),
        ensures
            match found {
                Some(pos) => {
                    &&& Maze::<S>::on_grid(pos@)
                    &&& self.pending(pos@)
                    &&& forall|q: Spot|
                        Maze::<S>::on_grid(q) && precedes(q, pos@) ==> !#[trigger] self.pending(q)
                    &&& self@.first_pending() == Some(pos@)
                },
                None => self.complete() && self@.first_pending() is None,
            },
    {
        let mut y: usize = 0;
        while y < S
            invariant
                y <= S,
                self.sized(),
                forall|q: Spot| Maze::<S>::on_grid(q) && q.1 < y ==> !#[trigger] self.pending(q),
            decreases S - y,
        {
            let mut x: usize = 0;
            while x < S
                invariant
                    y < S,
                    x <= S,
                    self.sized(),
                    forall|q: Spot|
                        Maze::<S>::on_grid(q) && precedes(q, (x as int, y as int))
                            ==> !#[trigger] self.pending(q),
                decreases S - x,
            {
                if !self.maze.cells[y][x].masked && !self.known[y][x] {
                    proof {
                        self.lemma_first_pending((x as int, y as int));
                    }
                    return Some(Pos { x, y });
                }
                x += 1;
            }
            y += 1;
        }
        proof {
            self.lemma_none_pending();
        }
        None
    }

    /// The directions, in the order north, west, south, east, in which the
    /// cell at `pos` has a pending neighbour.
    pub fn fresh_neighbours(&self, pos: Pos) -> (fresh: Vec<Direction>)
        requires
            self.sized(),
            Maze::<S>::on_grid(pos@),
        ensures
            fresh@ == self@.fresh_dirs(pos@),
            forall|d: Direction| fresh@.contains(d) <==> self@.fresh_at(pos@, d),
    {
        let mut fresh: Vec<Direction> = Vec::new();
        self.add_if_fresh(&mut fresh, pos, Direction::North);
        self.add_if_fresh(&mut fresh, pos, Direction::West);
        self.add_if_fresh(&mut fresh, pos, Direction::South);
        self.add_if_fresh(&mut fresh, pos, Direction::East);
        proof {
            assert(fresh@ =~= self@.fresh_dirs(pos@));
            lemma_only_if_four(
                self@.fresh_at(pos@, Direction::North),
                self@.fresh_at(pos@, Direction::West),
                self@.fresh_at(pos@, Direction::South),
                self@.fresh_at(pos@, Direction::East),
            );
        }
        fresh
    }

    /// Appends `direction` to `fresh` if the neighbour of `pos` there is
    /// pending.
    fn add_if_fresh(&self, fresh: &mut Vec<Direction>, pos: Pos, direction: Direction)
        requires
            self.sized(),
            Maze::<S>::on_grid(pos@),
        ensures
            final(fresh)@ == old(fresh)@ + only_if(self@.fresh_at(pos@, direction), direction),
    {
        match self.maze.step(pos.x, pos.y, direction) {
            Some((x, y)) => {
                if !self.known[y][x] {
                    fresh.push(direction);
                }
            },
            None => {},
        }
        proof {
            assert(fresh@ =~= old(fresh)@ + only_if(self@.fresh_at(pos@, direction), direction));
        }
    }
}

/// A direction is among the four that were kept exactly if it was kept.
pub proof fn lemma_only_if_four(north: bool, west: bool, south: bool, east: bool)
    ensures
        forall|d: Direction|
            (only_if(north, Direction::North) + only_if(west, Direction::West) + only_if(
                south,
                Direction::South,
            ) + only_if(east, Direction::East)).contains(d) <==> match d {
                Direction::North => north,
                Direction::West => west,
                Direction::South => south,
                Direction::East => east,
            },
{
    let all = only_if(north, Direction::North) + only_if(west, Direction::West) + only_if(
        south,
        Direction::South,
    ) + only_if(east, Direction::East);
    let a = only_if(north, Direction::North);
    let b = only_if(west, Direction::West);
    let c = only_if(south, Direction::South);
    let e = only_if(east, Direction::East);
    assert forall|d: Direction| all.contains(d) implies match d {
        Direction::North => north,
        Direction::West => west,
        Direction::South => south,
        Direction::East => east,
    } by {
        let i = choose|i: int| 0 <= i < all.len() && all[i] == d;
        if i < a.len() {
            assert(all[i] == a[i]);
        } else if i < a.len() + b.len() {
            assert(all[i] == b[i - a.len()]);
        } else if i < a.len() + b.len() + c.len() {
            assert(all[i] == c[i - a.len() - b.len()]);
        } else {
            assert(all[i] == e[i - a.len() - b.len() - c.len()]);
        }
    }
    if north {
        assert(all[0] == Direction::North);
    }
    if west {
        assert(all[a.len() as int] == Direction::West);
    }
    if south {
        assert(all[(a.len() + b.len()) as int] == Direction::South);
    }
    if east {
        assert(all[(a.len() + b.len() + c.len()) as int] == Direction::East);
    }
}

} // verus!
