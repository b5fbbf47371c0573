//! The loop-erased random walk generator: walks wander over the free cells,
//! lose every loop they close, and are carved into the maze once they meet
//! the tree.

use vstd::prelude::*;
use crate::generate::{Flaw, Refused};
use crate::growth::{Growth, Sprout, lemma_only_if_four, only_if, seedling};
use crate::maze::{Direction, Maze, Pos};
use crate::random::Dice;
use crate::shape::{Shape, Spot, closed, precedes, toward};

verus! {

/// The number of steps a single walk may take before it is given up; see
/// [`Maze::walker`].
pub const WALK_BUDGET: usize = 0xFFFF_FFFF;

/// `i` is the index at which `pos` first stands in `path`.
pub open spec fn is_first_at(path: Seq<Pos>, pos: Pos, i: int) -> bool {
    &&& 0 <= i < path.len()
    &&& path[i] == pos
    &&& forall|j: int| 0 <= j < i ==> path[j] != pos
}

/// The index at which `pos` first stands in `path`, which holds it.
pub open spec fn first_index(path: Seq<Pos>, pos: Pos) -> int {
    choose|i: int| is_first_at(path, pos, i)
}

/// Only one index is the first.
pub proof fn lemma_first_index(path: Seq<Pos>, pos: Pos, i: int)
    requires
        is_first_at(path, pos, i),
    ensures
        first_index(path, pos) == i,
        path.contains(pos),
{
    let k = first_index(path, pos);
    assert(is_first_at(path, pos, k));
    if k < i {
        assert(path[k] != pos);
    } else if i < k {
        assert(path[i] != pos);
    }
}

/// The position one step from `at` in direction `d`.
pub open spec fn shifted(at: Pos, d: Direction) -> Pos {
    Pos { x: (at.x + d.dx()) as usize, y: (at.y + d.dy()) as usize }
}

/// A walk and the directions of its steps after the step in direction `d`
/// that leads to `next`: where `next` already stands on the walk, the walk
/// is cut back to that place; otherwise `next` is appended.
pub open spec fn advanced(path: Seq<Pos>, moves: Seq<Direction>, d: Direction, next: Pos) -> (
    Seq<Pos>,
    Seq<Direction>,
) {
    if path.contains(next) {
        let i = first_index(path, next);
        (path.subrange(0, i + 1), moves.subrange(0, i))
    } else {
        (path.push(next), moves.push(d))
    }
}

/// The walk, the directions of its steps and the dice after at most `left`
/// more random steps: the walk ends on a cell of the tree, or where it has
/// nowhere to go.
pub open spec fn wander_run(
    sprout: Sprout,
    dice: Dice,
    path: Seq<Pos>,
    moves: Seq<Direction>,
    left: nat,
) -> (Seq<Pos>, Seq<Direction>, Dice)
    decreases left,
{
    let at = path.last();
    let steps = sprout.shape.step_dirs(at@);
    if left == 0 || sprout.known.contains(at@) || steps.len() == 0 {
        (path, moves, dice)
    } else {
        let (d, rolled) = dice.pick_spec(steps);
        let (longer, taken) = advanced(path, moves, d, shifted(at, d));
        wander_run(sprout, rolled, longer, taken, (left - 1) as nat)
    }
}

/// The tree after the cells of `path` from index `from` on, but for the
/// last, have been joined each to the next, the last of them first.
pub open spec fn grafted(sprout: Sprout, path: Seq<Pos>, moves: Seq<Direction>, from: nat) -> Sprout
    decreases moves.len() - from,
{
    if from >= moves.len() {
        sprout
    } else {
        grafted(sprout, path, moves, from + 1).attached(path[from as int]@, moves[from as int])
    }
}

/// The tree and the dice after one round of the walker from the pending cell
/// `from`: a walk of at most `budget` steps is carved into the maze if it
/// ends on the tree; in place of one that does not, the cell that the hunt
/// finds is joined to the tree.
pub open spec fn walker_round(sprout: Sprout, dice: Dice, from: Spot, budget: nat) -> (
    Sprout,
    Dice,
) {
    let start = Pos { x: from.0 as usize, y: from.1 as usize };
    let (path, moves, rolled) = wander_run(sprout, dice, seq![start], Seq::empty(), budget);
    if sprout.known.contains(path.last()@) {
        (grafted(sprout, path, moves, 0), rolled)
    } else {
        match sprout.hunted() {
            Some((leaf, d)) => (sprout.attached(leaf, d), rolled),
            None => (sprout, rolled),
        }
    }
}

/// The tree and the dice after at most `fuel` rounds of the walker, each
/// from the first pending cell, until no cell is pending.
pub open spec fn walker_run(sprout: Sprout, dice: Dice, budget: nat, fuel: nat) -> (Sprout, Dice)
    decreases fuel,
{
    if fuel == 0 {
        (sprout, dice)
    } else {
        match sprout.first_pending() {
            None => (sprout, dice),
            Some(from) => {
                let (grown, rolled) = walker_round(sprout, dice, from, budget);
                walker_run(grown, rolled, budget, (fuel - 1) as nat)
            },
        }
    }
}

/// The maze that the walker carves with `dice` and `budget` steps for each
/// walk on a grid of side `side` with mask `masked`, and the dice it leaves.
pub open spec fn walker_of(side: int, masked: Set<Spot>, dice: Dice, budget: nat) -> (Shape, Dice) {
    let (grown, rolled) = walker_run(seedling(side, masked), dice, budget, (side * side) as nat);
    (grown.shape, rolled)
}

impl Shape {
    /// The directions, in the order north, west, south, east, in which `at`
    /// has a free neighbour.
    pub open spec fn step_dirs(self, at: Spot) -> Seq<Direction> {
        only_if(self.may_step(at, Direction::North), Direction::North) + only_if(
            self.may_step(at, Direction::West),
            Direction::West,
        ) + only_if(self.may_step(at, Direction::South), Direction::South) + only_if(
            self.may_step(at, Direction::East),
            Direction::East,
        )
    }
}

/// The index at which `pos` first stands in `path`.
pub fn position(path: &Vec<Pos>, pos: Pos) -> (found: Option<usize>)
    ensures
        match found {
            Some(i) => is_first_at(path@, pos, i as int) && first_index(path@, pos) == i,
            None => !path@.contains(pos),
        },
{
    let mut i: usize = 0;
    while i < path.len()
        invariant
            i <= path@.len(),
            forall|j: int| 0 <= j < i ==> path@[j] != pos,
        decreases path@.len() - i,
    {
        if path[i] == pos {
            proof {
                lemma_first_index(path@, pos, i as int);
            }
            return Some(i);
        }
        i += 1;
    }
    None
}

/// Extends a walk by the step in `direction` that leads to `next`, and erases
/// the loop that this closes: where `next` already stands on `path`, the walk
/// is cut back to that place; otherwise `next` is appended. `moves` holds the
/// direction of every step of `path`.
pub fn advance(path: &mut Vec<Pos>, moves: &mut Vec<Direction>, direction: Direction, next: Pos)
    requires
        old(path)@.len() == old(moves)@.len() + 1,
    ensures
        final(path)@.len() == final(moves)@.len() + 1,
        (final(path)@, final(moves)@) == advanced(old(path)@, old(moves)@, direction, next),
{
    let len = path.len();
    match position(path, next) {
        Some(i) => {
            assert(i < len);
            path.truncate(i + 1);
            moves.truncate(i);
        },
        None => {
            path.push(next);
            moves.push(direction);
        },
    }
}

impl<const S: usize> Maze<S> {
    /// The directions, in the order north, west, south, east, in which the
    /// cell at `pos` has a free neighbour.
    pub fn steps_from(&self, pos: Pos) -> (steps: Vec<Direction>)
        requires
            self.wf(),
            Self::on_grid(pos@),
        ensures
            steps@ == self@.step_dirs(pos@),
            forall|d: Direction| steps@.contains(d) <==> self@.may_step(pos@, d),
    {
        let mut steps: Vec<Direction> = Vec::new();
        self.add_if_step(&mut steps, pos, Direction::North);
        self.add_if_step(&mut steps, pos, Direction::West);
        self.add_if_step(&mut steps, pos, Direction::South);
        self.add_if_step(&mut steps, pos, Direction::East);
        proof {
            assert(steps@ =~= self@.step_dirs(pos@));
            lemma_only_if_four(
                self@.may_step(pos@, Direction::North),
                self@.may_step(pos@, Direction::West),
                self@.may_step(pos@, Direction::South),
                self@.may_step(pos@, Direction::East),
            );
        }
        steps
    }

    /// Appends `direction` to `steps` if the neighbour of `pos` there is free.
    fn add_if_step(&self, steps: &mut Vec<Direction>, pos: Pos, direction: Direction)
        requires
            self.wf(),
            Self::on_grid(pos@),
        ensures
            final(steps)@ == old(steps)@ + only_if(self@.may_step(pos@, direction), direction),
    {
        if self.step(pos.x, pos.y, direction).is_some() {
            steps.push(direction);
        }
        proof {
            assert(steps@ =~= old(steps)@ + only_if(self@.may_step(pos@, direction), direction));
        }
    }
}

impl<const S: usize> Growth<S> {
    /// `path` is a walk without loops over free cells, `moves` the direction
    /// of each of its steps, and every cell of it but perhaps the last is
    /// pending.
    pub open spec fn is_trace(&self, path: Seq<Pos>, moves: Seq<Direction>) -> bool {
        &&& path.len() == moves.len() + 1
        &&& forall|i: int| 0 <= i < path.len() ==> self.maze@.free(#[trigger] path[i]@)
        &&& forall|i: int| 0 <= i < moves.len() ==> toward(path[i]@, #[trigger] moves[i]) == path[i + 1]@
        &&& forall|i: int, j: int| 0 <= i < j < path.len() ==> path[i] != path[j]
        &&& forall|i: int| 0 <= i < path.len() - 1 ==> self.pending(#[trigger] path[i]@)
    }

    /// A walk stays a walk without loops when it is advanced by a step from
    /// its last cell, a pending one, to a free neighbour.
    pub proof fn lemma_trace_advanced(
        &self,
        path: Seq<Pos>,
        moves: Seq<Direction>,
        d: Direction,
        next: Pos,
    )
        requires
            self.is_trace(path, moves),
            self.pending(path.last()@),
            self.maze@.may_step(path.last()@, d),
            next@ == toward(path.last()@, d),
        ensures
            self.is_trace(advanced(path, moves, d, next).0, advanced(path, moves, d, next).1),
            advanced(path, moves, d, next).0.last() == next,
            advanced(path, moves, d, next).0[0] == path[0],
    {
        let (longer, taken) = advanced(path, moves, d, next);
        if !path.contains(next) {
            assert forall|i: int| 0 <= i < taken.len() implies toward(
                longer[i]@,
                #[trigger] taken[i],
            ) == longer[i + 1]@ by {
                if i < moves.len() {
                    assert(taken[i] == moves[i]);
                }
            }
            assert forall|i: int| 0 <= i < longer.len() - 1 implies self.pending(
                #[trigger] longer[i]@,
            ) by {
                if i < path.len() - 1 {
                    assert(longer[i] == path[i]);
                }
            }
            assert forall|i: int, j: int| 0 <= i < j < longer.len() implies longer[i]
                != longer[j] by {
                if j == path.len() {
                    assert(path[i] != next);
                }
            }
            assert forall|i: int| 0 <= i < longer.len() implies self.maze@.free(
                #[trigger] longer[i]@,
            ) by {
                if i < path.len() {
                    assert(longer[i] == path[i]);
                }
            }
        } else {
            let anywhere = choose|j: int| 0 <= j < path.len() && path[j] == next;
            let found = first_at(path, next, anywhere);
            assert(is_first_at(path, next, found));
            let i = first_index(path, next);
            assert(is_first_at(path, next, i));
            assert forall|k: int| 0 <= k < taken.len() implies toward(
                longer[k]@,
                #[trigger] taken[k],
            ) == longer[k + 1]@ by {
                assert(taken[k] == moves[k]);
            }
            assert forall|k: int| 0 <= k < longer.len() - 1 implies self.pending(
                #[trigger] longer[k]@,
            ) by {
                assert(longer[k] == path[k]);
            }
            assert forall|k: int| 0 <= k < longer.len() implies self.maze@.free(
                #[trigger] longer[k]@,
            ) by {
                assert(longer[k] == path[k]);
            }
        }
    }

    /// Walks at random from the pending cell `from`, erasing loops, until the
    /// walk stands on a cell of the tree, has nowhere to go, or has taken
    /// `budget` steps. Returns the walk and the directions of its steps.
    pub fn wander(&self, dice: &mut Dice, from: Pos, budget: usize) -> (walk: (
        Vec<Pos>,
        Vec<Direction>,
    ))
        requires
            self.wf(),
            Maze::<S>::on_grid(from@),
            self.pending(from@),
        ensures
            self.is_trace(walk.0@, walk.1@),
            walk.0@[0] == from,
            (walk.0@, walk.1@, *final(dice)) == wander_run(
                self@,
                *old(dice),
                seq![from],
                Seq::empty(),
                budget as nat,
            ),
    {
        let mut path: Vec<Pos> = Vec::new();
        let mut moves: Vec<Direction> = Vec::new();
        path.push(from);
        let mut at = from;
        let mut left = budget;
        proof {
            assert(path@ =~= seq![from]);
            assert(moves@ =~= Seq::<Direction>::empty());
        }
        while left > 0 && !self.known[at.y][at.x]
            invariant
                self.sized(),
                self.is_trace(path@, moves@),
                path@[0] == from,
                path@.last() == at,
                Maze::<S>::on_grid(at@),
                wander_run(self@, *dice, path@, moves@, left as nat) == wander_run(
                    self@,
                    *old(dice),
                    seq![from],
                    Seq::empty(),
                    budget as nat,
                ),
            decreases left,
        {
            proof {
                assert(self.members().contains(at@) == self.is_known(at@));
            }
            left -= 1;
            let steps = self.maze.steps_from(at);
            if steps.len() == 0 {
                left = 0;
            } else {
                let direction = dice.pick(steps);
                let next = at.shift(direction).unwrap();
                proof {
                    assert(next == shifted(at, direction));
                    assert(self.maze@.may_step(at@, direction));
                    assert(self.maze@.free(path@[path@.len() - 1]@));
                    self.lemma_trace_advanced(path@, moves@, direction, next);
                }
                advance(&mut path, &mut moves, direction, next);
                at = next;
            }
        }
        proof {
            assert(self.members().contains(at@) == self.is_known(at@));
        }
        (path, moves)
    }

    /// Carves a walk that ends on the tree into the maze: every cell of it
    /// becomes a cell of the tree, joined to the next cell of the walk.
    pub fn graft(&mut self, path: &Vec<Pos>, moves: &Vec<Direction>)
        requires
            old(self).wf(),
            old(self).is_trace(path@, moves@),
            old(self).is_known(path@.last()@),
        ensures
            final(self).wf(),
            final(self).maze@.masked == old(self).maze@.masked,
            final(self).maze.same_scratch(&old(self).maze),
            final(self).root == old(self).root,
            final(self).size() == old(self).size() + moves@.len(),
            forall|i: int| 0 <= i < path@.len() ==> final(self).is_known(#[trigger] path@[i]@),
            final(self)@ == grafted(old(self)@, path@, moves@, 0),
    {
        let mut i: usize = moves.len();
        proof {
            assert(path@.subrange(0, i + 1) =~= path@);
            assert(moves@.subrange(0, i as int) =~= moves@);
            assert forall|k: int| 0 <= k < path@.len() implies Maze::<S>::on_grid(
                #[trigger] path@[k]@,
            ) by {
                assert(self.maze@.free(path@[k]@));
            }
        }
        while i > 0
            invariant
                i <= moves@.len(),
                path@.len() == moves@.len() + 1,
                self.wf(),
                self.maze@.masked == old(self).maze@.masked,
                self.maze.same_scratch(&old(self).maze),
                self.root == old(self).root,
                self.size() == old(self).size() + moves@.len() - i,
                self@ == grafted(old(self)@, path@, moves@, i as nat),
                self.is_trace(path@.subrange(0, i + 1), moves@.subrange(0, i as int)),
                forall|k: int| 0 <= k < path@.len() ==> Maze::<S>::on_grid(#[trigger] path@[k]@),
                forall|k: int| i <= k < path@.len() ==> self.is_known(#[trigger] path@[k]@),
            decreases i,
        {
            let ghost head = path@.subrange(0, i + 1);
            let ghost steps = moves@.subrange(0, i as int);
            i -= 1;
            let leaf = path[i];
            let direction = moves[i];
            proof {
                assert(head[i as int] == leaf);
                assert(steps[i as int] == direction);
                assert(self.pending(head[i as int]@));
                assert(toward(head[i as int]@, steps[i as int]) == head[i + 1]@);
                assert(head[i + 1] == path@[i + 1]);
                assert(self.maze@.free(head[i + 1]@));
            }
            let ghost before = *self;
            self.attach(leaf, direction);
            proof {
                let shorter = path@.subrange(0, i + 1);
                let fewer = moves@.subrange(0, i as int);
                assert forall|k: int| 0 <= k < shorter.len() implies self.maze@.free(
                    #[trigger] shorter[k]@,
                ) by {
                    assert(shorter[k] == head[k]);
                    assert(before.maze@.free(head[k]@));
                }
                assert forall|k: int| 0 <= k < fewer.len() implies toward(
                    shorter[k]@,
                    #[trigger] fewer[k],
                ) == shorter[k + 1]@ by {
                    assert(fewer[k] == steps[k]);
                    assert(shorter[k] == head[k]);
                    assert(shorter[k + 1] == head[k + 1]);
                }
                assert forall|a: int, b: int| 0 <= a < b < shorter.len() implies shorter[a]
                    != shorter[b] by {
                    assert(shorter[a] == head[a]);
                    assert(shorter[b] == head[b]);
                }
                assert forall|k: int| 0 <= k < shorter.len() - 1 implies self.pending(
                    #[trigger] shorter[k]@,
                ) by {
                    assert(shorter[k] == head[k]);
                    assert(before.pending(head[k]@));
                    assert(head[k] != head[i as int]);
                }
            }
        }
    }
}

/// The first index at which `pos` stands in `path`, given one at which it
/// does.
proof fn first_at(path: Seq<Pos>, pos: Pos, upto: int) -> (i: int)
    requires
        0 <= upto < path.len(),
        path[upto] == pos,
    ensures
        0 <= i <= upto,
        path[i] == pos,
        forall|j: int| 0 <= j < i ==> path[j] != pos,
    decreases upto,
{
    if exists|j: int| 0 <= j < upto && path[j] == pos {
        let j = choose|j: int| 0 <= j < upto && path[j] == pos;
        first_at(path, pos, j)
    } else {
        upto
    }
}

impl<const S: usize> Growth<S> {
    /// One round of the walker: a walk from the pending cell `from` is
    /// carved into the maze if it ends on the tree; in place of one that does
    /// not, the first pending cell that touches the tree is joined to it.
    pub fn round(&mut self, dice: &mut Dice, from: Pos, budget: usize)
        requires
            old(self).wf(),
            old(self).maze@.mask_connected(),
            Maze::<S>::on_grid(from@),
            old(self).pending(from@),
        ensures
            final(self).wf(),
            final(self).maze@.masked == old(self).maze@.masked,
            final(self).maze.same_scratch(&old(self).maze),
            final(self).size() > old(self).size(),
            (final(self)@, *final(dice)) == walker_round(
                old(self)@,
                *old(dice),
                from@,
                budget as nat,
            ),
    {
        assert(from == (Pos { x: from@.0 as usize, y: from@.1 as usize }));
        let (path, moves) = self.wander(dice, from, budget);
        let last = path[path.len() - 1];
        proof {
            assert(self.maze@.free(path@[path@.len() - 1]@));
        }
        if self.known[last.y][last.x] {
            proof {
                if moves@.len() == 0 {
                    assert(path@[0] == last);
                }
            }
            self.graft(&path, &moves);
        } else {
            match self.hunt() {
                Some((leaf, direction)) => {
                    self.attach(leaf, direction);
                },
                None => {
                    proof {
                        let lattice = self.maze@.lattice();
                        assert(self.members().contains(self.root@));
                        assert(lattice.free(self.root@) && lattice.free(from@));
                        assert(lattice.reachable(self.root@, from@));
                        let n = choose|n: nat| lattice.walk(self.root@, from@, n);
                        let q = self.lemma_fringe_exists(from@, n);
                        assert(self.maze@.free(q));
                        assert(Maze::<S>::on_grid(q));
                        assert(self.on_fringe(q));
                        assert(false);
                    }
                },
            }
        }
    }
}

impl<const S: usize> Maze<S> {
    /// Carves the maze by loop-erased random walks, drawing from `dice`; a
    /// walk that has not met the tree after `budget` steps is given up.
    ///
    /// The maze is refused, untouched, where its mask does not leave one
    /// connected playable area. Otherwise all walls are closed, scratch
    /// values forgotten and the end points put on the first and the last free
    /// cell, and the first free cell becomes the tree. Then, as
    /// long as a free cell is pending, a walk starts at the first pending
    /// cell in row-major order, steps to a random free neighbour again and
    /// again, is cut back whenever it returns to a cell of its own, and is
    /// carved into the maze when it stands on the tree. In place of a walk
    /// that is given up, the first pending cell that touches the tree is
    /// joined to it. Whatever is drawn, and whatever the budget, the open
    /// walls end up as a spanning tree over the free cells; which one, and
    /// what is left of the dice, is given by [`walker_of`].
    pub fn walker_within(self, dice: &mut Dice, budget: usize) -> (made: Result<
        Self,
        Refused<S>,
    >)
        requires
            self.wf(),
        ensures
            made is Ok <==> self@.mask_connected(),
            match made {
                Ok(out) => {
                    &&& out.carved_from(&self)
                    &&& (out@, *final(dice)) == walker_of(
                        S as int,
                        self@.masked,
                        *old(dice),
                        budget as nat,
                    )
                },
                Err(refused) => {
                    &&& refused.maze == self
                    &&& refused.flaw == Flaw::Disconnected
                    &&& *final(dice) == *old(dice)
                },
            },
    {
        if !self.mask_connected() {
            return Err(Refused { maze: self, flaw: Flaw::Disconnected });
        }
        let ghost given = self;
        let root = match self.first_free() {
            Some(root) => root,
            None => {
                proof {
                    let p = choose|p: Spot| given@.free(p);
                    assert(given@.free(p));
                }
                return Err(Refused { maze: self, flaw: Flaw::Disconnected });
            },
        };
        let mut cleared = self.clear();
        let ghost unseated = cleared;
        cleared.seat_ends();
        let ghost seed = seedling(S as int, given@.masked);
        proof {
            assert(cleared@.masked =~= given@.masked);
            assert(cleared@.free(root@));
            assert forall|p: Spot| Maze::<S>::on_grid(p) implies !(#[trigger] cleared.cell(p)).up
                && !cleared.cell(p).right && cleared.cell(p).dist is None && cleared.cell(p).path
                is None by {
                assert(cleared.cell(p) == unseated.cell(p));
            }
            assert(cleared@.is_first_free(root@)) by {
                assert forall|q: Spot| cleared@.inside(q) && precedes(
                    q,
                    root@,
                ) implies !#[trigger] cleared@.free(q) by {
                    assert(!given@.free(q));
                }
            }
            cleared@.lemma_first_free(root@);
            assert(cleared@.lattice() == given@.lattice());
        }
        let ghost blank = cleared;
        let mut growth = Growth::begin(cleared, root);
        let ghost mut rounds: nat = 0;
        proof {
            growth.lemma_size_bound();
            growth.lemma_size_positive();
            assert(growth@ == seed);
        }
        let mut start = growth.first_pending();
        while start.is_some()
            invariant
                given@.mask_connected(),
                growth.grows_over(&given, &blank),
                growth.size() <= S * S,
                rounds + 1 <= growth.size(),
                match start {
                    Some(from) => Maze::<S>::on_grid(from@) && growth.pending(from@)
                        && growth@.first_pending() == Some(from@),
                    None => growth.complete() && growth@.first_pending() is None,
                },
                walker_run(growth@, *dice, budget as nat, (S * S - rounds) as nat) == walker_run(
                    seed,
                    *old(dice),
                    budget as nat,
                    (S * S) as nat,
                ),
            decreases S * S - growth.size(),
        {
            let from = start.unwrap();
            proof {
                assert(growth.maze@.lattice() == given@.lattice());
            }
            growth.round(dice, from, budget);
            proof {
                growth.lemma_size_bound();
                rounds = rounds + 1;
            }
            start = growth.first_pending();
        }
        proof {
            growth.lemma_complete_spans();
            growth.maze.lemma_ends_seated(&blank);
        }
        Ok(growth.maze)
    }

    /// Carves the maze by loop-erased random walks, drawing from `dice`, with
    /// [`WALK_BUDGET`] steps for each walk; see [`Maze::walker_within`].
    pub fn walker(self, dice: &mut Dice) -> (made: Result<Self, Refused<S>>)
        requires
            self.wf(),
        ensures
            made is Ok <==> self@.mask_connected(),
            match made {
                Ok(out) => {
                    &&& out.carved_from(&self)
                    &&& (out@, *final(dice)) == walker_of(
                        S as int,
                        self@.masked,
                        *old(dice),
                        WALK_BUDGET as nat,
                    )
                },
                Err(refused) => {
                    &&& refused.maze == self
                    &&& refused.flaw == Flaw::Disconnected
                    &&& *final(dice) == *old(dice)
                },
            },
    {
        self.walker_within(dice, WALK_BUDGET)
    }
}

} // verus!
