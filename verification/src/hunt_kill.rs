//! The hunt-and-kill generator: random runs from cell to fresh cell, and,
//! when a run is boxed in, a scan for the next place to start one.

use vstd::prelude::*;
use crate::generate::{Flaw, Refused};
use crate::growth::{Growth, Sprout, seedling};
use crate::maze::{Direction, Maze, Pos};
use crate::random::Dice;
use crate::shape::{Shape, Spot, closed, precedes, toward};

verus! {

/// The tree, the cell arrived at and the dice after a kill phase of at most
/// `fuel` moves from `at`: as long as `at` has a pending neighbour, one is
/// picked, joined to the tree, and moved to.
pub open spec fn kill_run(sprout: Sprout, at: Spot, dice: Dice, fuel: nat) -> (Sprout, Spot, Dice)
    decreases fuel,
{
    let fresh = sprout.fresh_dirs(at);
    if fuel == 0 || fresh.len() == 0 {
        (sprout, at, dice)
    } else {
        let (d, rolled) = dice.pick_spec(fresh);
        let next = toward(at, d);
        kill_run(sprout.attached(next, d.flip()), next, rolled, (fuel - 1) as nat)
    }
}

/// The tree and the dice after at most `fuel` rounds of kill and hunt from
/// `at`: a kill phase, then the cell that the hunt finds is joined to the
/// tree and the next round starts there; where the hunt finds nothing the
/// tree is done.
pub open spec fn hunt_kill_run(sprout: Sprout, at: Spot, dice: Dice, fuel: nat) -> (Sprout, Dice)
    decreases fuel,
{
    if fuel == 0 {
        (sprout, dice)
    } else {
        let cells = (sprout.shape.side * sprout.shape.side) as nat;
        let (grown, _, rolled) = kill_run(sprout, at, dice, cells);
        match grown.hunted() {
            Some((leaf, d)) => hunt_kill_run(
                grown.attached(leaf, d),
                leaf,
                rolled,
                (fuel - 1) as nat,
            ),
            None => (grown, rolled),
        }
    }
}

/// The maze that hunt and kill carves with `dice` on a grid of side `side`
/// with mask `masked`, and the dice it leaves.
pub open spec fn hunt_and_kill_of(side: int, masked: Set<Spot>, dice: Dice) -> (Shape, Dice) {
    let start = seedling(side, masked);
    let (grown, rolled) = hunt_kill_run(
        start,
        start.shape.first_free(),
        dice,
        (side * side) as nat,
    );
    (grown.shape, rolled)
}

impl<const S: usize> Growth<S> {
    /// The tree grows in a maze that had the mask of `given` and whose
    /// distances and path flags are those of `cleared`.
    pub open spec fn grows_over(&self, given: &Maze<S>, cleared: &Maze<S>) -> bool {
        &&& self.wf()
        &&& self.maze@.masked == given@.masked
        &&& self.maze.same_scratch(cleared)
    }

    /// A tree holds at least its root.
    pub proof fn lemma_size_positive(&self)
        requires
            self.wf(),
        ensures
            self.size() >= 1,
    {
        assert(self.members().contains(self.root@));
        crate::tally::lemma_tally_at_least(
            |p: Spot| crate::tree::one_if(self.is_known(p)),
            S as int,
            self.root@,
        );
    }

    /// The kill phase: from `from`, a cell of the tree, moves again and again
    /// to a pending neighbour picked at random and hangs it onto the tree,
    /// until the cell arrived at has no pending neighbour. Returns that cell.
    pub fn kill(&mut self, dice: &mut Dice, from: Pos) -> (at: Pos)
        requires
            old(self).wf(),
            Maze::<S>::on_grid(from@),
            old(self).is_known(from@),
        ensures
            final(self).wf(),
            final(self).maze@.masked == old(self).maze@.masked,
            final(self).maze.same_scratch(&old(self).maze),
            final(self).root == old(self).root,
            final(self).size() >= old(self).size(),
            Maze::<S>::on_grid(at@),
            final(self).is_known(at@),
            forall|d: Direction| !final(self)@.fresh_at(at@, d),
            (final(self)@, at@, *final(dice)) == kill_run(
                old(self)@,
                from@,
                *old(dice),
                (S * S) as nat,
            ),
    {
        let mut at = from;
        let mut fresh = self.fresh_neighbours(at);
        let ghost mut moves: nat = 0;
        proof {
            self.lemma_size_positive();
            self.lemma_size_bound();
        }
        while fresh.len() > 0
            invariant
                self.wf(),
                self.maze@.masked == old(self).maze@.masked,
                self.maze.same_scratch(&old(self).maze),
                self.root == old(self).root,
                self.size() == old(self).size() + moves,
                old(self).size() >= 1,
                self.size() <= S * S,
                Maze::<S>::on_grid(at@),
                self.is_known(at@),
                fresh@ == self@.fresh_dirs(at@),
                forall|d: Direction| fresh@.contains(d) <==> self@.fresh_at(at@, d),
                kill_run(self@, at@, *dice, (S * S - moves) as nat) == kill_run(
                    old(self)@,
                    from@,
                    *old(dice),
                    (S * S) as nat,
                ),
            decreases S * S - self.size(),
        {
            let direction = dice.pick(fresh);
            let next = at.shift(direction).unwrap();
            proof {
                assert(self@.fresh_at(at@, direction));
                self.maze@.lemma_open_flip(at@, direction);
                assert(toward(next@, direction.flip()) == at@);
                assert(self.members().contains(at@));
            }
            self.attach(next, direction.opposite());
            proof {
                self.lemma_size_bound();
                moves = moves + 1;
            }
            at = next;
            fresh = self.fresh_neighbours(at);
        }
        proof {
            assert forall|d: Direction| !self@.fresh_at(at@, d) by {
                assert(!fresh@.contains(d));
            }
        }
        at
    }
}

impl<const S: usize> Maze<S> {
    /// Carves the maze by hunt and kill, drawing from `dice`.
    ///
    /// The maze is refused, untouched, where its mask does not leave one
    /// connected playable area. Otherwise all walls are closed, scratch
    /// values forgotten and the end points put on the first and the last free
    /// cell, and a tree is grown from the first free cell: a run
    /// moves to a random pending neighbour until there is none (kill), then
    /// the first pending cell in row-major order that touches the tree is
    /// joined to it and the next run starts there (hunt). Whatever is drawn,
    /// the open walls end up as a spanning tree over the free cells; which
    /// one, and what is left of the dice, is given by [`hunt_and_kill_of`].
    pub fn hunt_and_kill(self, dice: &mut Dice) -> (made: Result<Self, Refused<S>>)
        requires
            self.wf(),
        ensures
            made is Ok <==> self@.mask_connected(),
            match made {
                Ok(out) => {
                    &&& out.carved_from(&self)
                    &&& (out@, *final(dice)) == hunt_and_kill_of(
                        S as int,
                        self@.masked,
                        *old(dice),
                    )
                },
                Err(refused) => {
                    &&& refused.maze == self
                    &&& refused.flaw == Flaw::Disconnected
                    &&& *final(dice) == *old(dice)
                },
            },
    {
        if !self.mask_connected() {
            return Err(Refused { maze: self, flaw: Flaw::Disconnected });
        }
        let ghost given = self;
        let root = match self.first_free() {
            Some(root) => root,
            None => {
                proof {
                    let p = choose|p: Spot| given@.free(p);
                    assert(given@.free(p));
                }
                return Err(Refused { maze: self, flaw: Flaw::Disconnected });
            },
        };
        let mut cleared = self.clear();
        let ghost unseated = cleared;
        cleared.seat_ends();
        let ghost start = seedling(S as int, given@.masked);
        proof {
            assert(cleared@.masked =~= given@.masked);
            assert(cleared@.free(root@));
            assert forall|p: Spot| Maze::<S>::on_grid(p) implies !(#[trigger] cleared.cell(p)).up
                && !cleared.cell(p).right && cleared.cell(p).dist is None && cleared.cell(p).path
                is None by {
                assert(cleared.cell(p) == unseated.cell(p));
            }
            assert(cleared@.is_first_free(root@)) by {
                assert forall|q: Spot| cleared@.inside(q) && precedes(
                    q,
                    root@,
                ) implies !#[trigger] cleared@.free(q) by {
                    assert(!given@.free(q));
                }
            }
            cleared@.lemma_first_free(root@);
        }
        let ghost blank = cleared;
        let mut growth = Growth::begin(cleared, root);
        let mut at = root;
        let mut hunting = true;
        let ghost mut rounds: nat = 0;
        proof {
            growth.lemma_size_bound();
            assert(growth.members().contains(root@));
            assert(growth@ == start);
        }
        while hunting
            invariant
                given.wf(),
                given@.mask_connected(),
                growth.grows_over(&given, &blank),
                Maze::<S>::on_grid(at@),
                growth.is_known(at@),
                growth.size() <= S * S,
                rounds + 1 <= growth.size(),
                !hunting ==> growth.complete(),
                hunting ==> hunt_kill_run(growth@, at@, *dice, (S * S - rounds) as nat)
                    == hunt_kill_run(start, root@, *old(dice), (S * S) as nat),
                !hunting ==> (growth@, *dice) == hunt_kill_run(
                    start,
                    root@,
                    *old(dice),
                    (S * S) as nat,
                ),
            decreases S * S - growth.size() + (if hunting { 1int } else { 0int }),
        {
            at = growth.kill(dice, at);
            match growth.hunt() {
                Some((leaf, direction)) => {
                    growth.attach(leaf, direction);
                    at = leaf;
                    proof {
                        rounds = rounds + 1;
                    }
                },
                None => {
                    hunting = false;
                    proof {
                        let lattice = given@.lattice();
                        assert(growth.maze@.lattice() == lattice);
                        assert(growth.members().contains(growth.root@));
                        assert forall|p: Spot| Maze::<S>::on_grid(p) implies !#[trigger] growth.pending(
                            p,
                        ) by {
                            if growth.pending(p) {
                                assert(lattice.free(growth.root@) && lattice.free(p));
                                assert(lattice.reachable(growth.root@, p));
                                let n = choose|n: nat| lattice.walk(growth.root@, p, n);
                                let q = growth.lemma_fringe_exists(p, n);
                                lattice.lemma_walk_inside(growth.root@, p, n);
                                assert(growth.maze@.free(q));
                                assert(Maze::<S>::on_grid(q));
                                assert(growth.on_fringe(q));
                                assert(false);
                            }
                        }
                    }
                },
            }
            proof {
                growth.lemma_size_bound();
            }
        }
        proof {
            growth.lemma_complete_spans();
            growth.maze.lemma_ends_seated(&blank);
        }
        Ok(growth.maze)
    }
}

} // verus!
