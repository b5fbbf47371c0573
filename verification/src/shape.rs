//! The mathematical model of a maze: which walls are open and which cells are
//! masked, together with the graph notions (walks, distance, connectivity,
//! cycles) that the contracts of the engine are stated in.

use vstd::prelude::*;
use crate::maze::Direction;

verus! {

/// A grid coordinate in specifications: `(x, y)`.
pub type Spot = (int, int);

/// The persistent part of a maze of side `side`.
///
/// `up` holds the cells whose north flag is set, `right` the cells whose east
/// flag is set, `masked` the cells excluded from the playable area.
#[verifier::ext_equal]
pub struct Shape {
    pub side: int,
    pub up: Set<Spot>,
    pub right: Set<Spot>,
    pub masked: Set<Spot>,
}

impl Direction {
    /// Change of `x` when stepping in this direction.
    pub open spec fn dx(self) -> int {
        match self {
            Direction::East => 1,
            Direction::West => -1,
            _ => 0,
        }
    }

    /// Change of `y` when stepping in this direction.
    pub open spec fn dy(self) -> int {
        match self {
            Direction::North => 1,
            Direction::South => -1,
            _ => 0,
        }
    }

    /// The direction that undoes this one.
    pub open spec fn flip(self) -> Direction {
        match self {
            Direction::North => Direction::South,
            Direction::East => Direction::West,
            Direction::South => Direction::North,
            Direction::West => Direction::East,
        }
    }
}

/// `p` comes before `q` in row-major order.
pub open spec fn precedes(p: Spot, q: Spot) -> bool {
    p.1 < q.1 || (p.1 == q.1 && p.0 < q.0)
}

/// The shape of side `side` with mask `masked` and all walls closed.
pub open spec fn closed(side: int, masked: Set<Spot>) -> Shape {
    Shape { side, up: Set::empty(), right: Set::empty(), masked }
}

/// The spot reached from `p` by one step in direction `d`.
pub open spec fn toward(p: Spot, d: Direction) -> Spot {
    (p.0 + d.dx(), p.1 + d.dy())
}

impl Shape {
    /// `p` lies on the grid.
    pub open spec fn inside(self, p: Spot) -> bool {
        0 <= p.0 < self.side && 0 <= p.1 < self.side
    }

    /// `p` lies on the grid and is not masked.
    pub open spec fn free(self, p: Spot) -> bool {
        self.inside(p) && !self.masked.contains(p)
    }

    /// The wall between `p` and its neighbour in direction `d` is open.
    ///
    /// North and east are read from the cell's own flag, south and west from
    /// the neighbour's; nothing is open across the border of the grid.
    pub open spec fn open(self, p: Spot, d: Direction) -> bool {
        self.inside(p) && match d {
            Direction::North => p.1 + 1 < self.side && self.up.contains(p),
            Direction::East => p.0 + 1 < self.side && self.right.contains(p),
            Direction::South => p.1 > 0 && self.up.contains((p.0, p.1 - 1)),
            Direction::West => p.0 > 0 && self.right.contains((p.0 - 1, p.1)),
        }
    }

    /// No cell of the grid is masked.
    pub open spec fn unmasked(self) -> bool {
        forall|p: Spot| self.inside(p) ==> !#[trigger] self.masked.contains(p)
    }

    /// `p` is the first free cell in row-major order.
    pub open spec fn is_first_free(self, p: Spot) -> bool {
        self.free(p) && forall|q: Spot| self.inside(q) && precedes(q, p) ==> !#[trigger] self.free(q)
    }

    /// `p` is the last free cell in row-major order.
    pub open spec fn is_last_free(self, p: Spot) -> bool {
        self.free(p) && forall|q: Spot| self.inside(q) && precedes(p, q) ==> !#[trigger] self.free(q)
    }

    /// The first free cell in row-major order.
    pub open spec fn first_free(self) -> Spot {
        choose|p: Spot| self.is_first_free(p)
    }

    /// Only one cell is the first free one.
    pub proof fn lemma_first_free(self, p: Spot)
        requires
            self.is_first_free(p),
        ensures
            self.first_free() == p,
    {
        let q = self.first_free();
        if p != q {
            assert(precedes(p, q) || precedes(q, p));
        }
    }

    /// Shapes of the same side with the same mask have the same first and
    /// last free cell.
    pub proof fn lemma_same_mask_same_ends(self, other: Shape, p: Spot)
        requires
            self.side == other.side,
            self.masked == other.masked,
        ensures
            self.free(p) == other.free(p),
            self.is_first_free(p) == other.is_first_free(p),
            self.is_last_free(p) == other.is_last_free(p),
    {
        assert forall|q: Spot| self.free(q) == other.free(q) by {}
        if self.is_first_free(p) {
            assert forall|q: Spot| other.inside(q) && precedes(q, p) implies !#[trigger] other.free(
                q,
            ) by {
                assert(!self.free(q));
            }
        }
        if other.is_first_free(p) {
            assert forall|q: Spot| self.inside(q) && precedes(q, p) implies !#[trigger] self.free(
                q,
            ) by {
                assert(!other.free(q));
            }
        }
        if self.is_last_free(p) {
            assert forall|q: Spot| other.inside(q) && precedes(p, q) implies !#[trigger] other.free(
                q,
            ) by {
                assert(!self.free(q));
            }
        }
        if other.is_last_free(p) {
            assert forall|q: Spot| self.inside(q) && precedes(p, q) implies !#[trigger] self.free(
                q,
            ) by {
                assert(!other.free(q));
            }
        }
    }

    /// The neighbour of `p` in direction `d` is on the grid and not masked,
    /// whatever the walls.
    pub open spec fn may_step(self, p: Spot, d: Direction) -> bool {
        self.inside(p) && self.free(toward(p, d))
    }

    /// `a` and `b` are neighbours with an open wall between them.
    pub open spec fn linked(self, a: Spot, b: Spot) -> bool {
        exists|d: Direction| #[trigger] self.open(a, d) && toward(a, d) == b
    }

    /// There is a walk of exactly `n` open-wall hops from `a` to `b`.
    pub open spec fn walk(self, a: Spot, b: Spot, n: nat) -> bool
        decreases n,
    {
        if n == 0 {
            a == b && self.inside(a)
        } else {
            exists|d: Direction| #[trigger]
                self.open(b, d) && self.walk(a, toward(b, d), (n - 1) as nat)
        }
    }

    /// `b` can be reached from `a` through open walls.
    pub open spec fn reachable(self, a: Spot, b: Spot) -> bool {
        exists|n: nat| self.walk(a, b, n)
    }

    /// `n` is the least number of open-wall hops from `a` to `b`.
    pub open spec fn nearest(self, a: Spot, b: Spot, n: nat) -> bool {
        self.walk(a, b, n) && forall|k: nat| k < n ==> !self.walk(a, b, k)
    }

    /// The hop distance from `a` to `b`: the least number of open-wall hops,
    /// or `None` where `b` cannot be reached from `a`.
    pub open spec fn distance(self, a: Spot, b: Spot) -> Option<nat> {
        if self.reachable(a, b) {
            Some(choose|n: nat| self.nearest(a, b, n))
        } else {
            None
        }
    }
}

impl Shape {
    /// An open wall is open from both sides.
    pub proof fn lemma_open_flip(self, p: Spot, d: Direction)
        ensures
            self.open(p, d) == self.open(toward(p, d), d.flip()),
            toward(toward(p, d), d.flip()) == p,
    {
    }

    /// Both ends of a walk lie on the grid.
    pub proof fn lemma_walk_inside(self, a: Spot, b: Spot, n: nat)
        requires
            self.walk(a, b, n),
        ensures
            self.inside(a),
            self.inside(b),
        decreases n,
    {
        if n > 0 {
            let d = choose|d: Direction| #[trigger]
                self.open(b, d) && self.walk(a, toward(b, d), (n - 1) as nat);
            self.lemma_walk_inside(a, toward(b, d), (n - 1) as nat);
        }
    }

    /// A walk grows by one hop at its far end.
    pub proof fn lemma_walk_push(self, a: Spot, b: Spot, n: nat, d: Direction)
        requires
            self.open(b, d),
            self.walk(a, toward(b, d), n),
        ensures
            self.walk(a, b, n + 1),
    {
    }

    /// A walk grows by one hop at its near end.
    pub proof fn lemma_walk_unshift(self, a: Spot, b: Spot, n: nat, d: Direction)
        requires
            self.open(a, d),
            self.walk(toward(a, d), b, n),
        ensures
            self.walk(a, b, n + 1),
        decreases n,
    {
        if n == 0 {
            self.lemma_open_flip(a, d);
            assert(self.walk(a, a, 0));
            assert(self.open(b, d.flip()) && self.walk(a, toward(b, d.flip()), 0));
        } else {
            let e = choose|e: Direction| #[trigger]
                self.open(b, e) && self.walk(toward(a, d), toward(b, e), (n - 1) as nat);
            self.lemma_walk_unshift(a, toward(b, e), (n - 1) as nat, d);
            assert(self.open(b, e) && self.walk(a, toward(b, e), n));
        }
    }

    /// A walk can be walked backwards.
    pub proof fn lemma_walk_back(self, a: Spot, b: Spot, n: nat)
        requires
            self.walk(a, b, n),
        ensures
            self.walk(b, a, n),
        decreases n,
    {
        if n > 0 {
            let d = choose|d: Direction| #[trigger]
                self.open(b, d) && self.walk(a, toward(b, d), (n - 1) as nat);
            self.lemma_walk_back(a, toward(b, d), (n - 1) as nat);
            self.lemma_walk_unshift(b, a, (n - 1) as nat, d);
        }
    }

    /// Two walks that meet make one walk.
    pub proof fn lemma_walk_join(self, a: Spot, b: Spot, c: Spot, n: nat, m: nat)
        requires
            self.walk(a, b, n),
            self.walk(b, c, m),
        ensures
            self.walk(a, c, n + m),
        decreases m,
    {
        if m > 0 {
            let d = choose|d: Direction| #[trigger]
                self.open(c, d) && self.walk(b, toward(c, d), (m - 1) as nat);
            self.lemma_walk_join(a, b, toward(c, d), n, (m - 1) as nat);
            assert(self.open(c, d) && self.walk(a, toward(c, d), (n + m - 1) as nat));
        }
    }

    /// Where there is a walk there is a shortest one, and it is no longer.
    pub proof fn lemma_least_walk(self, a: Spot, b: Spot, n: nat) -> (k: nat)
        requires
            self.walk(a, b, n),
        ensures
            k <= n,
            self.nearest(a, b, k),
        decreases n,
    {
        if forall|j: nat| j < n ==> !self.walk(a, b, j) {
            n
        } else {
            let j = choose|j: nat| j < n && self.walk(a, b, j);
            self.lemma_least_walk(a, b, j)
        }
    }

    /// A cell at least distance `n > 0` has a neighbour through an open wall
    /// at least distance `n - 1`.
    pub proof fn lemma_nearest_before(self, a: Spot, b: Spot, n: nat) -> (d: Direction)
        requires
            self.nearest(a, b, n),
            n > 0,
        ensures
            self.open(b, d),
            self.nearest(a, toward(b, d), (n - 1) as nat),
    {
        let d = choose|d: Direction| #[trigger]
            self.open(b, d) && self.walk(a, toward(b, d), (n - 1) as nat);
        assert forall|k: nat| k < n - 1 implies !self.walk(a, toward(b, d), k) by {
            if self.walk(a, toward(b, d), k) {
                self.lemma_walk_push(a, b, k, d);
                assert(self.walk(a, b, k + 1));
            }
        }
        d
    }

    /// On a shortest walk of `n` hops there is a cell at every least distance
    /// up to `n`.
    pub proof fn lemma_nearest_ancestor(self, a: Spot, b: Spot, n: nat, m: nat) -> (c: Spot)
        requires
            self.nearest(a, b, n),
            m <= n,
        ensures
            self.nearest(a, c, m),
        decreases n,
    {
        if m == n {
            b
        } else {
            let d = self.lemma_nearest_before(a, b, n);
            self.lemma_nearest_ancestor(a, toward(b, d), (n - 1) as nat, m)
        }
    }

    /// The least hop count is the distance.
    pub proof fn lemma_distance(self, a: Spot, b: Spot, n: nat)
        requires
            self.nearest(a, b, n),
        ensures
            self.distance(a, b) == Some(n),
    {
        assert(self.reachable(a, b));
        let k = choose|k: nat| self.nearest(a, b, k);
        assert(k == n) by {
            if k < n {
                assert(!self.walk(a, b, k));
            } else if n < k {
                assert(!self.walk(a, b, n));
            }
        }
    }
}

} // verus!
