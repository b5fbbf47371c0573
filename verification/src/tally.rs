//! Sums of a weight over the cells of a square grid, used to count cells and
//! walls and to measure the progress of the grid algorithms.

use vstd::prelude::*;
use crate::shape::Spot;

verus! {

/// The sum of `f` over the first `w` cells of row `y`.
pub open spec fn row_sum(f: spec_fn(Spot) -> nat, y: int, w: int) -> nat
    decreases w,
{
    if w <= 0 {
        0
    } else {
        row_sum(f, y, w - 1) + f((w - 1, y))
    }
}

/// The sum of `f` over the first `h` rows of a grid of side `side`.
pub open spec fn rows_sum(f: spec_fn(Spot) -> nat, side: int, h: int) -> nat
    decreases h,
{
    if h <= 0 {
        0
    } else {
        rows_sum(f, side, h - 1) + row_sum(f, h - 1, side)
    }
}

/// The sum of `f` over all cells of a grid of side `side`.
pub open spec fn tally(f: spec_fn(Spot) -> nat, side: int) -> nat {
    rows_sum(f, side, side)
}

/// Weights that agree on a row have the same sum there.
proof fn lemma_row_same(f: spec_fn(Spot) -> nat, g: spec_fn(Spot) -> nat, y: int, w: int)
    requires
        forall|x: int| 0 <= x < w ==> #[trigger] f((x, y)) == g((x, y)),
    ensures
        row_sum(f, y, w) == row_sum(g, y, w),
    decreases w,
{
    if w > 0 {
        lemma_row_same(f, g, y, w - 1);
    }
}

/// Weights that differ at one cell of a row have sums that differ by as much.
proof fn lemma_row_change(
    f: spec_fn(Spot) -> nat,
    g: spec_fn(Spot) -> nat,
    y: int,
    w: int,
    x0: int,
)
    requires
        0 <= x0 < w,
        forall|x: int| 0 <= x < w && x != x0 ==> #[trigger] f((x, y)) == g((x, y)),
    ensures
        row_sum(g, y, w) + f((x0, y)) == row_sum(f, y, w) + g((x0, y)),
    decreases w,
{
    if x0 == w - 1 {
        lemma_row_same(f, g, y, w - 1);
    } else {
        lemma_row_change(f, g, y, w - 1, x0);
    }
}

/// A weight of at most `b` per cell sums to at most `b` times the width of a row.
proof fn lemma_row_bound(f: spec_fn(Spot) -> nat, y: int, w: int, b: nat)
    requires
        0 <= w,
        forall|x: int| 0 <= x < w ==> #[trigger] f((x, y)) <= b,
    ensures
        row_sum(f, y, w) <= b * w,
    decreases w,
{
    if w > 0 {
        lemma_row_bound(f, y, w - 1, b);
        assert(b * (w - 1) + b == b * w) by (nonlinear_arith);
    }
}

/// The sum over a row is at least the weight of any of its cells.
proof fn lemma_row_at_least(f: spec_fn(Spot) -> nat, y: int, w: int, x0: int)
    requires
        0 <= x0 < w,
    ensures
        row_sum(f, y, w) >= f((x0, y)),
    decreases w,
{
    if x0 < w - 1 {
        lemma_row_at_least(f, y, w - 1, x0);
    }
}

/// Weights that agree on the first rows have the same sum there.
proof fn lemma_rows_same(f: spec_fn(Spot) -> nat, g: spec_fn(Spot) -> nat, side: int, h: int)
    requires
        forall|p: Spot| 0 <= p.0 < side && 0 <= p.1 < h ==> #[trigger] f(p) == g(p),
    ensures
        rows_sum(f, side, h) == rows_sum(g, side, h),
    decreases h,
{
    if h > 0 {
        lemma_rows_same(f, g, side, h - 1);
        lemma_row_same(f, g, h - 1, side);
    }
}

/// Weights that differ at one cell of the first rows have sums that differ by as
/// much.
proof fn lemma_rows_change(
    f: spec_fn(Spot) -> nat,
    g: spec_fn(Spot) -> nat,
    side: int,
    h: int,
    p0: Spot,
)
    requires
        0 <= p0.0 < side,
        0 <= p0.1 < h,
        forall|p: Spot| 0 <= p.0 < side && 0 <= p.1 < h && p != p0 ==> #[trigger] f(p) == g(p),
    ensures
        rows_sum(g, side, h) + f(p0) == rows_sum(f, side, h) + g(p0),
    decreases h,
{
    if p0.1 == h - 1 {
        lemma_rows_same(f, g, side, h - 1);
        assert forall|x: int| 0 <= x < side && x != p0.0 implies #[trigger] f((x, h - 1)) == g((x, h - 1)) by {
            assert((x, h - 1) != p0);
        }
        lemma_row_change(f, g, h - 1, side, p0.0);
        assert(p0 == (p0.0, h - 1));
    } else {
        lemma_rows_change(f, g, side, h - 1, p0);
        lemma_row_same(f, g, h - 1, side);
    }
}

/// A weight of at most `b` per cell sums to at most `b` times the number of
/// cells in the first rows.
proof fn lemma_rows_bound(f: spec_fn(Spot) -> nat, side: int, h: int, b: nat)
    requires
        0 <= side,
        0 <= h,
        forall|p: Spot| 0 <= p.0 < side && 0 <= p.1 < h ==> #[trigger] f(p) <= b,
    ensures
        rows_sum(f, side, h) <= b * side * h,
    decreases h,
{
    if h > 0 {
        lemma_rows_bound(f, side, h - 1, b);
        lemma_row_bound(f, h - 1, side, b);
        assert(b * side * (h - 1) + b * side == b * side * h) by (nonlinear_arith);
    } else {
        assert(b * side * h == 0) by (nonlinear_arith)
            requires
                h == 0,
        ;
    }
}

/// The sum over the first rows is at least the weight of any of their cells.
proof fn lemma_rows_at_least(f: spec_fn(Spot) -> nat, side: int, h: int, p0: Spot)
    requires
        0 <= p0.0 < side,
        0 <= p0.1 < h,
    ensures
        rows_sum(f, side, h) >= f(p0),
    decreases h,
{
    if p0.1 < h - 1 {
        lemma_rows_at_least(f, side, h - 1, p0);
    } else {
        lemma_row_at_least(f, h - 1, side, p0.0);
        assert(p0 == (p0.0, h - 1));
    }
}

/// Weights that agree on the grid have the same sum.
pub proof fn lemma_tally_same(f: spec_fn(Spot) -> nat, g: spec_fn(Spot) -> nat, side: int)
    requires
        forall|p: Spot| 0 <= p.0 < side && 0 <= p.1 < side ==> #[trigger] f(p) == g(p),
    ensures
        tally(f, side) == tally(g, side),
{
    lemma_rows_same(f, g, side, side);
}

/// Weights that differ at one cell only have sums that differ by as much.
pub proof fn lemma_tally_change(
    f: spec_fn(Spot) -> nat,
    g: spec_fn(Spot) -> nat,
    side: int,
    p0: Spot,
)
    requires
        0 <= p0.0 < side,
        0 <= p0.1 < side,
        forall|p: Spot| 0 <= p.0 < side && 0 <= p.1 < side && p != p0 ==> #[trigger] f(p) == g(p),
    ensures
        tally(g, side) + f(p0) == tally(f, side) + g(p0),
{
    lemma_rows_change(f, g, side, side, p0);
}

/// A weight of at most `b` per cell sums to at most `b` times the cell count.
pub proof fn lemma_tally_bound(f: spec_fn(Spot) -> nat, side: int, b: nat)
    requires
        0 <= side,
        forall|p: Spot| 0 <= p.0 < side && 0 <= p.1 < side ==> #[trigger] f(p) <= b,
    ensures
        tally(f, side) <= b * side * side,
{
    lemma_rows_bound(f, side, side, b);
}

/// A weight of one per cell sums to the width of a row.
proof fn lemma_row_ones(f: spec_fn(Spot) -> nat, y: int, w: int)
    requires
        0 <= w,
        forall|x: int| 0 <= x < w ==> #[trigger] f((x, y)) == 1,
    ensures
        row_sum(f, y, w) == w,
    decreases w,
{
    if w > 0 {
        lemma_row_ones(f, y, w - 1);
    }
}

/// A weight of one per cell sums to the number of cells in the first rows.
proof fn lemma_rows_ones(f: spec_fn(Spot) -> nat, side: int, h: int)
    requires
        0 <= side,
        0 <= h,
        forall|p: Spot| 0 <= p.0 < side && 0 <= p.1 < h ==> #[trigger] f(p) == 1,
    ensures
        rows_sum(f, side, h) == side * h,
    decreases h,
{
    if h > 0 {
        lemma_rows_ones(f, side, h - 1);
        lemma_row_ones(f, h - 1, side);
        assert(side * (h - 1) + side == side * h) by (nonlinear_arith);
    } else {
        assert(side * h == 0) by (nonlinear_arith)
            requires
                h == 0,
        ;
    }
}

/// A weight of one per cell sums to the number of cells.
pub proof fn lemma_tally_ones(f: spec_fn(Spot) -> nat, side: int)
    requires
        0 <= side,
        forall|p: Spot| 0 <= p.0 < side && 0 <= p.1 < side ==> #[trigger] f(p) == 1,
    ensures
        tally(f, side) == side * side,
{
    lemma_rows_ones(f, side, side);
}

/// The sum is at least the weight of any one cell.
pub proof fn lemma_tally_at_least(f: spec_fn(Spot) -> nat, side: int, p0: Spot)
    requires
        0 <= p0.0 < side,
        0 <= p0.1 < side,
    ensures
        tally(f, side) >= f(p0),
{
    lemma_rows_at_least(f, side, side, p0);
}

} // verus!
