//! Distances in a rooted tree. The hop distance between two cells of a tree is
//! the sum of their depths below the place where their ways to the root meet;
//! from this follows that the cell farthest from any cell, and the cell
//! farthest from that one, lie as far apart as any two cells do.

use vstd::prelude::*;
use crate::maze::Direction;
use crate::shape::{Shape, Spot, precedes, toward};

verus! {

/// A shape whose open walls form a tree over its free cells, with the root
/// and the depths that certify it.
pub struct Rooting {
    pub shape: Shape,
    pub root: Spot,
    pub depth: Map<Spot, nat>,
}

/// The smaller of two numbers.
pub open spec fn least(a: nat, b: nat) -> nat {
    if a <= b {
        a
    } else {
        b
    }
}

impl Shape {
    /// `a` and `b` lie as far apart as any two cells do.
    pub open spec fn widest(self, a: Spot, b: Spot) -> bool {
        exists|n: nat|
            {
                &&& #[trigger] self.nearest(a, b, n)
                &&& forall|x: Spot, y: Spot, m: nat| #[trigger] self.nearest(x, y, m) ==> m <= n
            }
    }

    /// Only one pair of cells lies as far apart as any two cells do.
    pub open spec fn one_widest_pair(self) -> bool {
        forall|a: Spot, b: Spot, x: Spot, y: Spot|
            #![trigger self.widest(a, b), self.widest(x, y)]
            self.widest(a, b) && self.widest(x, y) ==> (a == x && b == y) || (a == y && b == x)
    }
}

impl Rooting {
    /// The depths certify a tree over the free cells of the shape.
    pub open spec fn wf(self) -> bool {
        self.shape.is_tree_of(self.shape.free_set(), self.root, self.depth)
    }

    /// The direction in which `p` has its parent.
    pub open spec fn up_dir(self, p: Spot) -> Direction {
        if self.shape.goes_up(self.depth, p, Direction::North) {
            Direction::North
        } else if self.shape.goes_up(self.depth, p, Direction::East) {
            Direction::East
        } else if self.shape.goes_up(self.depth, p, Direction::South) {
            Direction::South
        } else {
            Direction::West
        }
    }

    /// The parent of `p`.
    pub open spec fn parent(self, p: Spot) -> Spot {
        toward(p, self.up_dir(p))
    }

    /// The cell `j` levels above `p`.
    pub open spec fn climb(self, p: Spot, j: nat) -> Spot
        decreases j,
    {
        if j == 0 {
            p
        } else {
            self.climb(self.parent(p), (j - 1) as nat)
        }
    }

    /// The ancestor of `p` at depth `k`.
    pub open spec fn anc(self, p: Spot, k: nat) -> Spot {
        self.climb(p, (self.depth[p] - k) as nat)
    }

    /// The greatest depth up to `k` at which `u` and `v` have the same
    /// ancestor.
    pub open spec fn meet(self, u: Spot, v: Spot, k: nat) -> nat
        decreases k,
    {
        if k == 0 || self.anc(u, k) == self.anc(v, k) {
            k
        } else {
            self.meet(u, v, (k - 1) as nat)
        }
    }

    /// The depth at which the ways of `u` and `v` to the root meet.
    pub open spec fn level(self, u: Spot, v: Spot) -> nat {
        self.meet(u, v, least(self.depth[u], self.depth[v]))
    }

    /// The number of hops from `u` up to where the ways meet and down to `v`.
    pub open spec fn span(self, u: Spot, v: Spot) -> nat {
        (self.depth[u] + self.depth[v] - 2 * self.level(u, v)) as nat
    }

    /// A cell other than the root has a parent one level up, behind an open
    /// wall.
    pub proof fn lemma_parent(self, p: Spot)
        requires
            self.wf(),
            self.shape.free(p),
            p != self.root,
        ensures
            self.shape.free(self.parent(p)),
            self.depth[self.parent(p)] + 1 == self.depth[p],
            self.shape.goes_up(self.depth, p, self.up_dir(p)),
    {
        assert(self.shape.free_set().contains(p));
        assert(self.shape.parents(self.depth, p) == 1);
        let d = self.up_dir(p);
        assert(self.shape.goes_up(self.depth, p, d));
        assert(self.shape.open(p, d));
        assert(self.shape.free_set().contains(toward(p, d)));
    }

    /// Only the root has depth zero.
    pub proof fn lemma_depth_zero(self, p: Spot)
        requires
            self.wf(),
            self.shape.free(p),
            self.depth[p] == 0,
        ensures
            p == self.root,
    {
        if p != self.root {
            self.lemma_parent(p);
        }
    }

    /// The root has depth zero.
    pub proof fn lemma_root(self)
        requires
            self.wf(),
        ensures
            self.shape.free(self.root),
            self.depth[self.root] == 0,
    {
        assert(self.shape.free_set().contains(self.root));
    }

    /// Climbing `j` levels leads to a cell `j` levels up, `j` hops away.
    pub proof fn lemma_climb(self, p: Spot, j: nat)
        requires
            self.wf(),
            self.shape.free(p),
            j <= self.depth[p],
        ensures
            self.shape.free(self.climb(p, j)),
            self.depth[self.climb(p, j)] + j == self.depth[p],
            self.shape.walk(p, self.climb(p, j), j),
        decreases j,
    {
        if j == 0 {
            assert(self.shape.walk(p, p, 0));
        } else {
            self.lemma_root();
            self.lemma_parent(p);
            self.lemma_climb(self.parent(p), (j - 1) as nat);
            self.shape.lemma_walk_unshift(p, self.climb(p, j), (j - 1) as nat, self.up_dir(p));
        }
    }

    /// Climbing in two stages is climbing once.
    pub proof fn lemma_climb_twice(self, p: Spot, a: nat, b: nat)
        requires
            self.wf(),
            self.shape.free(p),
            a + b <= self.depth[p],
        ensures
            self.climb(self.climb(p, a), b) == self.climb(p, a + b),
        decreases a,
    {
        if a > 0 {
            self.lemma_root();
            self.lemma_parent(p);
            self.lemma_climb_twice(self.parent(p), (a - 1) as nat, b);
        }
    }

    /// The ancestor at depth `k` is free and has depth `k`, and an ancestor
    /// of an ancestor is an ancestor.
    pub proof fn lemma_anc(self, p: Spot, k: nat, j: nat)
        requires
            self.wf(),
            self.shape.free(p),
            j <= k <= self.depth[p],
        ensures
            self.shape.free(self.anc(p, k)),
            self.depth[self.anc(p, k)] == k,
            self.anc(self.anc(p, k), j) == self.anc(p, j),
    {
        let up = (self.depth[p] - k) as nat;
        self.lemma_climb(p, up);
        self.lemma_climb_twice(p, up, (k - j) as nat);
    }

    /// Ancestors that agree at some depth agree at every lesser depth.
    pub proof fn lemma_agree_down(self, u: Spot, v: Spot, k: nat, j: nat)
        requires
            self.wf(),
            self.shape.free(u),
            self.shape.free(v),
            j <= k,
            k <= self.depth[u],
            k <= self.depth[v],
            self.anc(u, k) == self.anc(v, k),
        ensures
            self.anc(u, j) == self.anc(v, j),
    {
        self.lemma_anc(u, k, j);
        self.lemma_anc(v, k, j);
    }

    /// What `meet` finds: a depth at which the ancestors agree, above which,
    /// up to `k`, they do not.
    pub proof fn lemma_meet(self, u: Spot, v: Spot, k: nat)
        requires
            self.wf(),
            self.shape.free(u),
            self.shape.free(v),
            k <= self.depth[u],
            k <= self.depth[v],
        ensures
            self.meet(u, v, k) <= k,
            self.anc(u, self.meet(u, v, k)) == self.anc(v, self.meet(u, v, k)),
            forall|j: nat| self.meet(u, v, k) < j <= k ==> self.anc(u, j) != self.anc(v, j),
        decreases k,
    {
        if k == 0 {
            self.lemma_anc(u, 0, 0);
            self.lemma_anc(v, 0, 0);
            self.lemma_depth_zero(self.anc(u, 0));
            self.lemma_depth_zero(self.anc(v, 0));
        } else if self.anc(u, k) != self.anc(v, k) {
            self.lemma_meet(u, v, (k - 1) as nat);
        }
    }

    /// The ways of `u` and `v` to the root are the same exactly from the
    /// level at which they meet.
    pub proof fn lemma_level(self, u: Spot, v: Spot, k: nat)
        requires
            self.wf(),
            self.shape.free(u),
            self.shape.free(v),
            k <= self.depth[u],
            k <= self.depth[v],
        ensures
            self.level(u, v) <= self.depth[u],
            self.level(u, v) <= self.depth[v],
            self.anc(u, k) == self.anc(v, k) <==> k <= self.level(u, v),
    {
        let top = least(self.depth[u], self.depth[v]);
        self.lemma_meet(u, v, top);
        if k <= self.level(u, v) {
            self.lemma_agree_down(u, v, self.level(u, v), k);
        }
    }

    /// The level at which two ways meet does not depend on the order.
    pub proof fn lemma_level_swap(self, u: Spot, v: Spot)
        requires
            self.wf(),
            self.shape.free(u),
            self.shape.free(v),
        ensures
            self.level(u, v) == self.level(v, u),
            self.span(u, v) == self.span(v, u),
    {
        self.lemma_level(u, v, 0);
        self.lemma_level(v, u, 0);
        self.lemma_level(u, v, self.level(v, u));
        self.lemma_level(v, u, self.level(u, v));
        self.lemma_level(u, v, self.level(u, v));
        self.lemma_level(v, u, self.level(v, u));
    }

    /// A cell meets itself at its own depth.
    pub proof fn lemma_level_self(self, u: Spot)
        requires
            self.wf(),
            self.shape.free(u),
        ensures
            self.level(u, u) == self.depth[u],
            self.span(u, u) == 0,
    {
    }

    /// Of the three levels at which three cells meet in pairs, none is below
    /// both others.
    pub proof fn lemma_level_three(self, a: Spot, b: Spot, c: Spot)
        requires
            self.wf(),
            self.shape.free(a),
            self.shape.free(b),
            self.shape.free(c),
        ensures
            self.level(a, b) >= least(self.level(a, c), self.level(b, c)),
    {
        let k = least(self.level(a, c), self.level(b, c));
        self.lemma_level(a, c, 0);
        self.lemma_level(b, c, 0);
        self.lemma_level(a, c, k);
        self.lemma_level(b, c, k);
        self.lemma_level(a, b, k);
    }

    /// Moving one of two cells to its parent lowers the level at which they
    /// meet to at most the parent's depth, and not otherwise.
    pub proof fn lemma_level_parent(self, u: Spot, v: Spot)
        requires
            self.wf(),
            self.shape.free(u),
            self.shape.free(v),
            v != self.root,
        ensures
            self.level(u, self.parent(v)) == least(
                self.level(u, v),
                (self.depth[v] - 1) as nat,
            ),
    {
        let w = self.parent(v);
        self.lemma_parent(v);
        let dv = self.depth[v];
        let here = self.level(u, v);
        let there = self.level(u, w);
        assert(self.anc(v, (dv - 1) as nat) == w) by {
            assert(self.climb(v, 1) == self.climb(w, 0));
        }
        self.lemma_level(u, v, 0);
        self.lemma_level(u, w, 0);
        assert forall|k: nat| k <= self.depth[u] && k <= dv - 1 implies (self.anc(u, k)
            == self.anc(w, k) <==> k <= here) by {
            self.lemma_anc(v, (dv - 1) as nat, k);
            self.lemma_level(u, v, k);
        }
        self.lemma_level(u, w, there);
        let low = least(here, (dv - 1) as nat);
        self.lemma_level(u, w, low);
    }

    /// Across an open wall the span from a third cell changes by at most
    /// one.
    pub proof fn lemma_span_step(self, u: Spot, p: Spot, d: Direction)
        requires
            self.wf(),
            self.shape.free(u),
            self.shape.open(p, d),
        ensures
            self.shape.free(p),
            self.shape.free(toward(p, d)),
            self.span(u, toward(p, d)) <= self.span(u, p) + 1,
    {
        let q = toward(p, d);
        self.lemma_edge(p, d);
        self.lemma_level(u, p, 0);
        self.lemma_level(u, q, 0);
        if self.depth[q] < self.depth[p] {
            self.lemma_parent(p);
            self.lemma_level_parent(u, p);
        } else {
            self.lemma_parent(q);
            self.lemma_level_parent(u, q);
        }
    }

    /// An open wall joins two free cells, one of which is the parent of the
    /// other.
    pub proof fn lemma_edge(self, p: Spot, d: Direction)
        requires
            self.wf(),
            self.shape.open(p, d),
        ensures
            self.shape.free(p),
            self.shape.free(toward(p, d)),
            self.depth[toward(p, d)] < self.depth[p] ==> p != self.root && self.parent(p)
                == toward(p, d),
            self.depth[toward(p, d)] >= self.depth[p] ==> toward(p, d) != self.root
                && self.parent(toward(p, d)) == p,
    {
        let q = toward(p, d);
        assert(self.shape.free_set().contains(p) && self.shape.free_set().contains(q));
        self.shape.lemma_open_flip(p, d);
        if self.depth[q] < self.depth[p] {
            assert(self.shape.goes_up(self.depth, p, d));
            assert(self.shape.parents(self.depth, p) == 1);
            assert(self.up_dir(p) == d);
        } else {
            assert(self.shape.goes_up(self.depth, q, d.flip()));
            assert(self.shape.parents(self.depth, q) == 1);
            assert(self.up_dir(q) == d.flip());
        }
    }

    /// No walk between two cells is shorter than their span.
    pub proof fn lemma_span_least(self, u: Spot, v: Spot, n: nat)
        requires
            self.wf(),
            self.shape.free(u),
            self.shape.walk(u, v, n),
        ensures
            self.shape.free(v),
            self.span(u, v) <= n,
        decreases n,
    {
        if n == 0 {
            self.lemma_level_self(u);
        } else {
            let d = choose|d: Direction| #[trigger]
                self.shape.open(v, d) && self.shape.walk(u, toward(v, d), (n - 1) as nat);
            let q = toward(v, d);
            self.lemma_span_least(u, q, (n - 1) as nat);
            self.shape.lemma_open_flip(v, d);
            self.lemma_span_step(u, q, d.flip());
        }
    }

    /// The span of two cells is their hop distance.
    pub proof fn lemma_span_nearest(self, u: Spot, v: Spot)
        requires
            self.wf(),
            self.shape.free(u),
            self.shape.free(v),
        ensures
            self.shape.nearest(u, v, self.span(u, v)),
    {
        let meet = self.level(u, v);
        self.lemma_level(u, v, 0);
        self.lemma_level(u, v, meet);
        let w = self.anc(u, meet);
        let up = (self.depth[u] - meet) as nat;
        let down = (self.depth[v] - meet) as nat;
        self.lemma_climb(u, up);
        self.lemma_climb(v, down);
        self.shape.lemma_walk_back(v, w, down);
        self.shape.lemma_walk_join(u, w, v, up, down);
        assert forall|k: nat| k < self.span(u, v) implies !self.shape.walk(u, v, k) by {
            if self.shape.walk(u, v, k) {
                self.lemma_span_least(u, v, k);
            }
        }
    }

    /// The least hop count between two different cells is their span, and
    /// both are free.
    pub proof fn lemma_nearest_span(self, u: Spot, v: Spot, n: nat)
        requires
            self.wf(),
            self.shape.nearest(u, v, n),
            self.shape.free(u) || n > 0,
        ensures
            self.shape.free(u),
            self.shape.free(v),
            n == self.span(u, v),
    {
        if n > 0 {
            self.shape.lemma_walk_back(u, v, n);
            let d = choose|d: Direction| #[trigger]
                self.shape.open(u, d) && self.shape.walk(v, toward(u, d), (n - 1) as nat);
            self.lemma_edge(u, d);
        }
        self.lemma_span_least(u, v, n);
        self.lemma_span_nearest(u, v);
        if self.span(u, v) < n {
            assert(!self.shape.walk(u, v, self.span(u, v)));
        }
    }

    /// The four-point condition of tree distances: of the three ways to
    /// pair up four cells, the two greatest sums of spans are equal; so one
    /// sum never exceeds both others.
    pub proof fn lemma_four_points(self, a: Spot, b: Spot, c: Spot, d: Spot)
        requires
            self.wf(),
            self.shape.free(a),
            self.shape.free(b),
            self.shape.free(c),
            self.shape.free(d),
        ensures
            self.span(a, b) + self.span(c, d) <= self.span(a, c) + self.span(b, d) || self.span(
                a,
                b,
            ) + self.span(c, d) <= self.span(a, d) + self.span(b, c),
    {
        self.lemma_level_swap(a, b);
        self.lemma_level_swap(a, c);
        self.lemma_level_swap(a, d);
        self.lemma_level_swap(b, c);
        self.lemma_level_swap(b, d);
        self.lemma_level_swap(c, d);
        self.lemma_level_three(a, b, c);
        self.lemma_level_three(a, c, b);
        self.lemma_level_three(b, c, a);
        self.lemma_level_three(a, b, d);
        self.lemma_level_three(a, d, b);
        self.lemma_level_three(b, d, a);
        self.lemma_level_three(a, c, d);
        self.lemma_level_three(a, d, c);
        self.lemma_level_three(c, d, a);
        self.lemma_level_three(b, c, d);
        self.lemma_level_three(b, d, c);
        self.lemma_level_three(c, d, b);
        self.lemma_level(a, b, 0);
        self.lemma_level(a, c, 0);
        self.lemma_level(a, d, 0);
        self.lemma_level(b, c, 0);
        self.lemma_level(b, d, 0);
        self.lemma_level(c, d, 0);
    }

    /// In a tree, the cell farthest from any free cell and the cell farthest
    /// from that one lie as far apart as any two cells do.
    pub proof fn lemma_far_of_far_is_widest(self, first: Spot, a: Spot, b: Spot)
        requires
            self.wf(),
            self.shape.free(first),
            self.shape.is_farthest(first, a),
            self.shape.is_farthest(a, b),
        ensures
            self.shape.widest(a, b),
    {
        let shape = self.shape;
        let n = choose|n: nat|
            {
                &&& #[trigger] shape.nearest(first, a, n)
                &&& forall|q: Spot, m: nat| #[trigger]
                    shape.nearest(first, q, m) ==> m <= n && (precedes(q, a) ==> m
                        < n)
            };
        self.lemma_nearest_span(first, a, n);
        let w = choose|w: nat|
            {
                &&& #[trigger] shape.nearest(a, b, w)
                &&& forall|q: Spot, m: nat| #[trigger]
                    shape.nearest(a, q, m) ==> m <= w && (precedes(q, b) ==> m < w)
            };
        self.lemma_nearest_span(a, b, w);
        assert forall|x: Spot, y: Spot, m: nat| #[trigger] shape.nearest(x, y, m) implies m
            <= w by {
            if m > 0 {
                self.lemma_nearest_span(x, y, m);
                self.lemma_four_points(x, y, first, a);
                self.lemma_span_nearest(first, x);
                self.lemma_span_nearest(first, y);
                self.lemma_span_nearest(a, x);
                self.lemma_span_nearest(a, y);
                self.lemma_level_swap(x, first);
                self.lemma_level_swap(y, first);
                self.lemma_level_swap(x, a);
                self.lemma_level_swap(y, a);
                assert(self.span(first, x) <= n);
                assert(self.span(first, y) <= n);
                assert(self.span(a, x) <= w);
                assert(self.span(a, y) <= w);
            }
        }
    }
}

impl Shape {
    /// Where the open walls form a tree over the free cells, the cell
    /// farthest from any free cell and the cell farthest from that one lie as
    /// far apart as any two cells do.
    pub proof fn lemma_longest_is_widest(self, first: Spot, a: Spot, b: Spot)
        requires
            self.rooted(),
            self.free(first),
            self.is_farthest(first, a),
            self.is_farthest(a, b),
        ensures
            self.widest(a, b),
    {
        let (root, depth) = choose|root: Spot, depth: Map<Spot, nat>|
            self.is_tree_of(self.free_set(), root, depth);
        let rooting = Rooting { shape: self, root, depth };
        assert(rooting.wf()) by {
            }
        rooting.lemma_far_of_far_is_widest(first, a, b);
    }

    /// In a maze whose open walls form a tree with only one pair of cells
    /// farthest apart, the search for the longest way ends on that pair
    /// whatever free cell it starts at: if `a1` is farthest from `first1` and
    /// `b1` from `a1`, and likewise `a2` from `first2` and `b2` from `a2`,
    /// then `a1`, `b1` and `a2`, `b2` are the same two cells.
    pub proof fn lemma_longest_is_one_pair(
        self,
        first1: Spot,
        a1: Spot,
        b1: Spot,
        first2: Spot,
        a2: Spot,
        b2: Spot,
    )
        requires
            self.rooted(),
            self.one_widest_pair(),
            self.free(first1),
            self.free(first2),
            self.is_farthest(first1, a1),
            self.is_farthest(a1, b1),
            self.is_farthest(first2, a2),
            self.is_farthest(a2, b2),
        ensures
            (a1 == a2 && b1 == b2) || (a1 == b2 && b1 == a2),
    {
        self.lemma_longest_is_widest(first1, a1, b1);
        self.lemma_longest_is_widest(first2, a2, b2);
    }
}

} // verus!
