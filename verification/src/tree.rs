//! Spanning trees over the free cells of a shape: what it means for the open
//! walls to form one, and the certificate by which the generators show it.

use vstd::prelude::*;
use crate::maze::Direction;
use crate::shape::{Shape, Spot, toward};
use crate::tally::{tally, lemma_tally_change};

verus! {

/// One if `b` holds, zero otherwise.
pub open spec fn one_if(b: bool) -> nat {
    if b {
        1
    } else {
        0
    }
}

/// The shape of side `side` with mask `masked` in which every wall between
/// two free cells is open.
pub open spec fn lattice_of(side: int, masked: Set<Spot>) -> Shape {
    Shape {
        side,
        masked,
        up: Set::new(
            |p: Spot|
                0 <= p.0 < side && 0 <= p.1 && p.1 + 1 < side && !masked.contains(p)
                    && !masked.contains((p.0, p.1 + 1)),
        ),
        right: Set::new(
            |p: Spot|
                0 <= p.0 && p.0 + 1 < side && 0 <= p.1 < side && !masked.contains(p)
                    && !masked.contains((p.0 + 1, p.1)),
        ),
    }
}

impl Shape {
    /// The shape with the wall between `p` and its neighbour in direction `d`
    /// opened.
    pub open spec fn joined(self, p: Spot, d: Direction) -> Shape {
        match d {
            Direction::North => Shape { up: self.up.insert(p), ..self },
            Direction::East => Shape { right: self.right.insert(p), ..self },
            Direction::South => Shape { up: self.up.insert((p.0, p.1 - 1)), ..self },
            Direction::West => Shape { right: self.right.insert((p.0 - 1, p.1)), ..self },
        }
    }

    /// The shape after the cell at `p` is masked or unmasked: a cell that
    /// becomes masked loses the wall flags on all four sides.
    pub open spec fn with_mask(self, p: Spot, masked: bool) -> Shape {
        if masked {
            Shape {
                masked: self.masked.insert(p),
                up: self.up.remove(p).remove((p.0, p.1 - 1)),
                right: self.right.remove(p).remove((p.0 - 1, p.1)),
                ..self
            }
        } else {
            Shape { masked: self.masked.remove(p), ..self }
        }
    }

    /// The shape in which every wall between two free cells is open: the
    /// graph of all steps that the mask allows.
    pub open spec fn lattice(self) -> Shape {
        lattice_of(self.side, self.masked)
    }

    /// There is a free cell, and every free cell can be reached from every
    /// other by steps over free cells.
    pub open spec fn mask_connected(self) -> bool {
        (exists|p: Spot| self.free(p)) && self.lattice().connected()
    }

    /// The number of open walls: each is counted once, at its southern or
    /// western cell.
    pub open spec fn edges(self) -> nat {
        tally(
            |p: Spot|
                one_if(self.open(p, Direction::North)) + one_if(self.open(p, Direction::East)),
            self.side,
        )
    }

    /// The number of cells that are not masked.
    pub open spec fn free_count(self) -> nat {
        tally(|p: Spot| one_if(self.free(p)), self.side)
    }

    /// No wall flag is set on a masked cell, towards a masked cell, or towards
    /// the outside of the grid.
    pub open spec fn tidy(self) -> bool {
        &&& forall|p: Spot| #[trigger]
            self.up.contains(p) ==> self.free(p) && self.free((p.0, p.1 + 1))
        &&& forall|p: Spot| #[trigger]
            self.right.contains(p) ==> self.free(p) && self.free((p.0 + 1, p.1))
    }

    /// Masking or unmasking a cell keeps a shape tidy.
    pub proof fn lemma_with_mask_tidy(self, p: Spot, masked: bool)
        requires
            self.tidy(),
        ensures
            self.with_mask(p, masked).tidy(),
    {
        let after = self.with_mask(p, masked);
        assert forall|q: Spot| #[trigger] after.up.contains(q) implies after.free(q) && after.free(
            (q.0, q.1 + 1),
        ) by {
            assert(self.up.contains(q));
        }
        assert forall|q: Spot| #[trigger] after.right.contains(q) implies after.free(q)
            && after.free((q.0 + 1, q.1)) by {
            assert(self.right.contains(q));
        }
    }

    /// Opening the wall between two free cells keeps a shape tidy.
    pub proof fn lemma_joined_tidy(self, p: Spot, d: Direction)
        requires
            self.tidy(),
            self.free(p),
            self.free(toward(p, d)),
        ensures
            self.joined(p, d).tidy(),
    {
        let after = self.joined(p, d);
        assert forall|q: Spot| #[trigger] after.up.contains(q) implies after.free(q) && after.free(
            (q.0, q.1 + 1),
        ) by {
            if self.up.contains(q) {
            }
        }
        assert forall|q: Spot| #[trigger] after.right.contains(q) implies after.free(q)
            && after.free((q.0 + 1, q.1)) by {
            if self.right.contains(q) {
            }
        }
    }

    /// In a tidy shape no wall of a masked cell is open.
    pub proof fn lemma_tidy_seals_mask(self, p: Spot, d: Direction)
        requires
            self.tidy(),
            self.masked.contains(p),
        ensures
            !self.open(p, d),
            !self.open(toward(p, d.flip()), d),
    {
        if self.open(p, d) {
            match d {
                Direction::North => {
                    assert(self.up.contains(p));
                },
                Direction::East => {
                    assert(self.right.contains(p));
                },
                Direction::South => {
                    assert(self.up.contains((p.0, p.1 - 1)));
                },
                Direction::West => {
                    assert(self.right.contains((p.0 - 1, p.1)));
                },
            }
        }
        let q = toward(p, d.flip());
        if self.open(q, d) {
            self.lemma_open_flip(q, d);
            assert(toward(q, d) == p);
            match d.flip() {
                Direction::North => {
                    assert(self.up.contains(p));
                },
                Direction::East => {
                    assert(self.right.contains(p));
                },
                Direction::South => {
                    assert(self.up.contains((p.0, p.1 - 1)));
                },
                Direction::West => {
                    assert(self.right.contains((p.0 - 1, p.1)));
                },
            }
        }
    }

    /// In a tidy shape a walk from a free cell ends on a free cell.
    pub proof fn lemma_walk_free(self, a: Spot, b: Spot, n: nat)
        requires
            self.tidy(),
            self.free(a),
            self.walk(a, b, n),
        ensures
            self.free(b),
        decreases n,
    {
        if n > 0 {
            let d = choose|d: Direction| #[trigger]
                self.open(b, d) && self.walk(a, toward(b, d), (n - 1) as nat);
            if self.masked.contains(b) {
                self.lemma_tidy_seals_mask(b, d);
            }
        }
    }

    /// Every free cell can be reached from every other through open walls.
    pub open spec fn connected(self) -> bool {
        forall|a: Spot, b: Spot| self.free(a) && self.free(b) ==> #[trigger] self.reachable(a, b)
    }

    /// `c` is a cycle: at least three distinct cells, each joined to the next
    /// and the last to the first by an open wall.
    pub open spec fn is_cycle(self, c: Seq<Spot>) -> bool {
        &&& c.len() >= 3
        &&& forall|i: int, j: int| 0 <= i < j < c.len() ==> c[i] != c[j]
        &&& forall|i: int| 0 <= i < c.len() - 1 ==> self.linked(#[trigger] c[i], c[i + 1])
        &&& self.linked(c.last(), c[0])
    }

    /// The open walls contain no cycle.
    pub open spec fn acyclic(self) -> bool {
        forall|c: Seq<Spot>| !self.is_cycle(c)
    }

    /// The open walls form a spanning tree over the free cells: one open wall
    /// fewer than free cells, every free cell reachable from every other, no
    /// cycle, and no wall flag on or towards a masked cell.
    pub open spec fn is_spanning_tree(self) -> bool {
        &&& self.tidy()
        &&& self.edges() + 1 == self.free_count()
        &&& self.connected()
        &&& self.acyclic()
    }

    /// The free cells.
    pub open spec fn free_set(self) -> Set<Spot> {
        Set::new(|p: Spot| self.free(p))
    }

    /// The open walls form a tree over the free cells that can be rooted:
    /// some free cell and some depths certify it.
    pub open spec fn rooted(self) -> bool {
        exists|root: Spot, depth: Map<Spot, nat>| self.is_tree_of(self.free_set(), root, depth)
    }

    /// The wall of `p` in direction `d` is open and leads to a cell of lower
    /// depth.
    pub open spec fn goes_up(self, depth: Map<Spot, nat>, p: Spot, d: Direction) -> bool {
        self.open(p, d) && depth[toward(p, d)] < depth[p]
    }

    /// The number of open walls of `p` that lead to a cell of lower depth.
    pub open spec fn parents(self, depth: Map<Spot, nat>, p: Spot) -> nat {
        one_if(self.goes_up(depth, p, Direction::North)) + one_if(
            self.goes_up(depth, p, Direction::East),
        ) + one_if(self.goes_up(depth, p, Direction::South)) + one_if(
            self.goes_up(depth, p, Direction::West),
        )
    }

    /// `depth` certifies that the open walls form a tree over `members`,
    /// rooted at `root`: the root has depth zero, walls join members only,
    /// depths across a wall differ by one, and every member but the root has
    /// exactly one wall leading to lower depth (its parent), the root none.
    pub open spec fn is_tree_of(self, members: Set<Spot>, root: Spot, depth: Map<Spot, nat>) -> bool {
        &&& members.contains(root)
        &&& depth[root] == 0
        &&& forall|p: Spot| #[trigger] members.contains(p) ==> self.inside(p)
        &&& forall|p: Spot, d: Direction| #[trigger]
            self.open(p, d) ==> {
                &&& members.contains(p)
                &&& members.contains(toward(p, d))
                &&& (depth[toward(p, d)] == depth[p] + 1 || depth[toward(p, d)] + 1 == depth[p])
            }
        &&& forall|p: Spot|
            members.contains(p) ==> #[trigger] self.parents(depth, p) == (if p == root {
                0nat
            } else {
                1nat
            })
    }

    /// In a certified tree every member is reached from the root.
    pub proof fn lemma_tree_reaches(
        self,
        members: Set<Spot>,
        root: Spot,
        depth: Map<Spot, nat>,
        p: Spot,
    ) -> (n: nat)
        requires
            self.is_tree_of(members, root, depth),
            members.contains(p),
        ensures
            self.walk(root, p, n),
        decreases depth[p],
    {
        if p == root {
            0
        } else {
            assert(self.parents(depth, p) == 1);
            let d = if self.goes_up(depth, p, Direction::North) {
                Direction::North
            } else if self.goes_up(depth, p, Direction::East) {
                Direction::East
            } else if self.goes_up(depth, p, Direction::South) {
                Direction::South
            } else {
                Direction::West
            };
            assert(self.goes_up(depth, p, d));
            let n = self.lemma_tree_reaches(members, root, depth, toward(p, d));
            self.lemma_walk_push(root, p, n, d);
            n + 1
        }
    }

    /// A certified tree over all free cells connects them.
    pub proof fn lemma_tree_connected(self, members: Set<Spot>, root: Spot, depth: Map<Spot, nat>)
        requires
            self.is_tree_of(members, root, depth),
            forall|p: Spot| self.free(p) ==> members.contains(p),
        ensures
            self.connected(),
    {
        assert forall|a: Spot, b: Spot| self.free(a) && self.free(b) implies #[trigger] self.reachable(
            a,
            b,
        ) by {
            let n = self.lemma_tree_reaches(members, root, depth, a);
            let m = self.lemma_tree_reaches(members, root, depth, b);
            self.lemma_walk_back(root, a, n);
            self.lemma_walk_join(a, root, b, n, m);
            assert(self.walk(a, b, n + m));
        }
    }

    /// Some cell of a non-empty sequence has the greatest depth.
    proof fn lemma_deepest(c: Seq<Spot>, depth: Map<Spot, nat>, upto: int) -> (m: int)
        requires
            0 < upto <= c.len(),
        ensures
            0 <= m < upto,
            forall|i: int| 0 <= i < upto ==> depth[#[trigger] c[i]] <= depth[c[m]],
        decreases upto,
    {
        if upto == 1 {
            0
        } else {
            let m = Self::lemma_deepest(c, depth, upto - 1);
            if depth[c[upto - 1]] > depth[c[m]] {
                upto - 1
            } else {
                m
            }
        }
    }

    /// A cell with two different neighbours behind open walls, neither of
    /// them deeper than itself, has two parents.
    proof fn lemma_two_parents(self, depth: Map<Spot, nat>, top: Spot, d1: Direction, d2: Direction)
        requires
            d1 != d2,
            self.open(top, d1),
            self.open(top, d2),
            depth[toward(top, d1)] < depth[top],
            depth[toward(top, d2)] < depth[top],
        ensures
            self.parents(depth, top) >= 2,
    {
        assert(self.goes_up(depth, top, d1));
        assert(self.goes_up(depth, top, d2));
    }

    /// The deepest cell of a cycle would have two parents.
    proof fn lemma_cycle_top(self, c: Seq<Spot>, depth: Map<Spot, nat>) -> (r: (
        Spot,
        Direction,
        Direction,
    ))
        requires
            self.is_cycle(c),
        ensures
            r.1 != r.2,
            self.open(r.0, r.1),
            self.open(r.0, r.2),
            depth[toward(r.0, r.1)] <= depth[r.0],
            depth[toward(r.0, r.2)] <= depth[r.0],
    {
        let len = c.len() as int;
        let m = Self::lemma_deepest(c, depth, len);
        let top = c[m];
        let j = if m + 1 < len {
            m + 1
        } else {
            0
        };
        let i = if m > 0 {
            m - 1
        } else {
            len - 1
        };
        let after = c[j];
        let before = c[i];
        assert(self.linked(top, after)) by {
            if m + 1 < len {
                assert(self.linked(c[m], c[m + 1]));
            }
        }
        assert(self.linked(before, top)) by {
            if m > 0 {
                assert(self.linked(c[m - 1], c[m - 1 + 1]));
            }
        }
        assert(before != after) by {
            if i < j {
                assert(c[i] != c[j]);
            } else {
                assert(c[j] != c[i]);
            }
        }
        let d1 = choose|d: Direction| #[trigger] self.open(top, d) && toward(top, d) == after;
        let d0 = choose|d: Direction| #[trigger] self.open(before, d) && toward(before, d) == top;
        self.lemma_open_flip(before, d0);
        (top, d1, d0.flip())
    }

    /// A certified tree has no cycle.
    pub proof fn lemma_tree_acyclic(self, members: Set<Spot>, root: Spot, depth: Map<Spot, nat>)
        requires
            self.is_tree_of(members, root, depth),
        ensures
            self.acyclic(),
    {
        assert forall|c: Seq<Spot>| !self.is_cycle(c) by {
            if self.is_cycle(c) {
                let (top, d1, d2) = self.lemma_cycle_top(c, depth);
                assert(members.contains(top));
                assert(depth[toward(top, d1)] != depth[top]);
                assert(depth[toward(top, d2)] != depth[top]);
                self.lemma_two_parents(depth, top, d1, d2);
            }
        }
    }

    /// Which walls are open after one more is opened.
    pub proof fn lemma_joined_open(self, p: Spot, d: Direction, q: Spot, e: Direction)
        requires
            self.inside(p),
            self.inside(toward(p, d)),
        ensures
            self.joined(p, d).open(q, e) == (self.open(q, e) || (q == p && e == d) || (q == toward(
                p,
                d,
            ) && e == d.flip())),
    {
    }

    /// Opening a closed wall adds one to the number of open walls.
    pub proof fn lemma_joined_edges(self, p: Spot, d: Direction)
        requires
            self.inside(p),
            self.inside(toward(p, d)),
            !self.open(p, d),
        ensures
            self.joined(p, d).edges() == self.edges() + 1,
    {
        let after = self.joined(p, d);
        let f = |q: Spot|
            one_if(self.open(q, Direction::North)) + one_if(self.open(q, Direction::East));
        let g = |q: Spot|
            one_if(after.open(q, Direction::North)) + one_if(after.open(q, Direction::East));
        let at = match d {
            Direction::North => p,
            Direction::East => p,
            _ => toward(p, d),
        };
        assert forall|q: Spot| 0 <= q.0 < self.side && 0 <= q.1 < self.side && q != at implies #[trigger] f(
            q,
        ) == g(q) by {
            self.lemma_joined_open(p, d, q, Direction::North);
            self.lemma_joined_open(p, d, q, Direction::East);
        }
        self.lemma_joined_open(p, d, at, Direction::North);
        self.lemma_joined_open(p, d, at, Direction::East);
        self.lemma_open_flip(p, d);
        lemma_tally_change(f, g, self.side, at);
        assert(g(at) == f(at) + 1);
    }

    /// A tree grows by a leaf: joining a cell outside the tree to a member
    /// gives a tree over one member more, the new cell one level below the
    /// member it hangs from.
    pub proof fn lemma_attach_leaf(
        self,
        members: Set<Spot>,
        root: Spot,
        depth: Map<Spot, nat>,
        leaf: Spot,
        d: Direction,
    )
        requires
            self.is_tree_of(members, root, depth),
            self.inside(leaf),
            !members.contains(leaf),
            members.contains(toward(leaf, d)),
        ensures
            self.joined(leaf, d).is_tree_of(
                members.insert(leaf),
                root,
                depth.insert(leaf, depth[toward(leaf, d)] + 1),
            ),
            self.joined(leaf, d).edges() == self.edges() + 1,
    {
        let host = toward(leaf, d);
        let after = self.joined(leaf, d);
        let members2 = members.insert(leaf);
        let depth2 = depth.insert(leaf, depth[host] + 1);
        assert(!self.open(leaf, d));
        self.lemma_joined_edges(leaf, d);
        assert forall|q: Spot, e: Direction| #[trigger] after.open(q, e) implies {
            &&& members2.contains(q)
            &&& members2.contains(toward(q, e))
            &&& (depth2[toward(q, e)] == depth2[q] + 1 || depth2[toward(q, e)] + 1 == depth2[q])
        } by {
            self.lemma_joined_open(leaf, d, q, e);
            self.lemma_open_flip(leaf, d);
            if self.open(q, e) {
                assert(members.contains(q) && members.contains(toward(q, e)));
            }
        }
        assert forall|q: Spot| members2.contains(q) implies #[trigger] after.parents(depth2, q) == (
        if q == root {
            0nat
        } else {
            1nat
        }) by {
            self.lemma_joined_open(leaf, d, q, Direction::North);
            self.lemma_joined_open(leaf, d, q, Direction::East);
            self.lemma_joined_open(leaf, d, q, Direction::South);
            self.lemma_joined_open(leaf, d, q, Direction::West);
            self.lemma_open_flip(leaf, d);
            if q == leaf {
                assert(!self.open(q, Direction::North));
                assert(!self.open(q, Direction::East));
                assert(!self.open(q, Direction::South));
                assert(!self.open(q, Direction::West));
                assert(after.goes_up(depth2, q, d));
            } else {
                assert(members.contains(q));
                assert(self.parents(depth, q) == (if q == root {
                    0nat
                } else {
                    1nat
                }));
                assert forall|e: Direction| after.goes_up(depth2, q, e) == self.goes_up(
                    depth,
                    q,
                    e,
                ) by {
                    self.lemma_joined_open(leaf, d, q, e);
                    if self.open(q, e) {
                        assert(members.contains(toward(q, e)));
                    }
                }
            }
        }
    }
}

} // verus!
