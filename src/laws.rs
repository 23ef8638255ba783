use crate::distance_field::{initial_distances, DistanceField};
use crate::sweep::{behind, round, rounds, solution, sweep, sweep_row, sweep_rows, visited, Sweep};
use crate::{cell_index, lemma_cell_index_bounds};
use vstd::prelude::*;

verus! {

/// `a` is nowhere above `b`, cell by cell.
pub open spec fn nowhere_above(a: Seq<u64>, b: Seq<u64>) -> bool {
    &&& a.len() == b.len()
    &&& forall|k: int| 0 <= k < a.len() ==> #[trigger] a[k] <= b[k]
}

/// Every cell holds the sentinel.
pub open spec fn all_unreached(d: Seq<u64>) -> bool {
    forall|k: int| 0 <= k < d.len() ==> #[trigger] d[k] == DistanceField::MAX_DISTANCE
}

/// A well-sized field for a `width` by `height` grid.
pub open spec fn sized(d: Seq<u64>, width: nat, height: nat) -> bool {
    &&& width > 0
    &&& height > 0
    &&& d.len() == width * height
}

pub(crate) proof fn lemma_row_pass_lowers(d: Seq<u64>, w: nat, h: nat, y: int, dir: Sweep, step: u64, j: nat)
    requires
        sized(d, w, h),
        0 <= y < h,
        0 <= behind(dir.downward(), y) < h,
        j <= w - 1,
    ensures
        nowhere_above(sweep_row(d, w, y, dir, step, j), d),
    decreases j,
{
    if j > 0 {
        lemma_row_pass_lowers(d, w, h, y, dir, step, (j - 1) as nat);
        let x = visited(w, dir.rightward(), j - 1);
        lemma_cell_index_bounds(w, h, x, y);
        let p = sweep_row(d, w, y, dir, step, (j - 1) as nat);
        let r = sweep_row(d, w, y, dir, step, j);
        assert forall|k: int| 0 <= k < r.len() implies #[trigger] r[k] <= d[k] by {
            assert(p[k] <= d[k]);
        }
    }
}

proof fn lemma_row_pass_keeps_unreached(d: Seq<u64>, w: nat, h: nat, y: int, dir: Sweep, step: u64, j: nat)
    requires
        sized(d, w, h),
        all_unreached(d),
        0 <= y < h,
        0 <= behind(dir.downward(), y) < h,
        j <= w - 1,
    ensures
        sweep_row(d, w, y, dir, step, j) == d,
    decreases j,
{
    if j > 0 {
        lemma_row_pass_keeps_unreached(d, w, h, y, dir, step, (j - 1) as nat);
        let x = visited(w, dir.rightward(), j - 1);
        lemma_cell_index_bounds(w, h, x, y);
        lemma_cell_index_bounds(w, h, behind(dir.rightward(), x), y);
        lemma_cell_index_bounds(w, h, x, behind(dir.downward(), y));
        let c = cell_index(w, x, y);
        assert(d.update(c, d[c]) =~= d);
    }
}

/// The row a pass visits `i`-th, and the row it reads beside it, lie inside the grid.
pub(crate) proof fn lemma_visited_row(h: nat, dir: Sweep, i: int)
    requires
        h > 0,
        0 <= i < h - 1,
    ensures
        0 <= visited(h, dir.downward(), i) < h,
        0 <= behind(dir.downward(), visited(h, dir.downward(), i)) < h,
{
}

pub(crate) proof fn lemma_pass_lowers(d: Seq<u64>, w: nat, h: nat, dir: Sweep, step: u64, i: nat)
    requires
        sized(d, w, h),
        i <= h - 1,
    ensures
        nowhere_above(sweep_rows(d, w, h, dir, step, i), d),
    decreases i,
{
    if i > 0 {
        lemma_pass_lowers(d, w, h, dir, step, (i - 1) as nat);
        let p = sweep_rows(d, w, h, dir, step, (i - 1) as nat);
        lemma_visited_row(h, dir, i - 1);
        lemma_row_pass_lowers(p, w, h, visited(h, dir.downward(), i - 1), dir, step, (w - 1) as nat);
        let r = sweep_rows(d, w, h, dir, step, i);
        assert forall|k: int| 0 <= k < r.len() implies #[trigger] r[k] <= d[k] by {
            assert(p[k] <= d[k]);
        }
    }
}

proof fn lemma_pass_keeps_unreached(d: Seq<u64>, w: nat, h: nat, dir: Sweep, step: u64, i: nat)
    requires
        sized(d, w, h),
        all_unreached(d),
        i <= h - 1,
    ensures
        sweep_rows(d, w, h, dir, step, i) == d,
    decreases i,
{
    if i > 0 {
        lemma_pass_keeps_unreached(d, w, h, dir, step, (i - 1) as nat);
        lemma_visited_row(h, dir, i - 1);
        lemma_row_pass_keeps_unreached(d, w, h, visited(h, dir.downward(), i - 1), dir, step, (w - 1) as nat);
    }
}

pub(crate) proof fn lemma_nowhere_above_trans(a: Seq<u64>, b: Seq<u64>, c: Seq<u64>)
    requires
        nowhere_above(a, b),
        nowhere_above(b, c),
    ensures
        nowhere_above(a, c),
{
    assert forall|k: int| 0 <= k < a.len() implies #[trigger] a[k] <= c[k] by {
        assert(a[k] <= b[k] && b[k] <= c[k]);
    }
}

/// A round never raises a distance.
pub proof fn lemma_round_lowers(d: Seq<u64>, width: nat, height: nat, step: u64)
    requires
        sized(d, width, height),
    ensures
        nowhere_above(round(d, width, height, step), d),
{
    let d1 = sweep(d, width, height, Sweep::TopLeftToBottomRight, step);
    let d2 = sweep(d1, width, height, Sweep::BottomRightToTopLeft, step);
    let d3 = sweep(d2, width, height, Sweep::TopRightToBottomLeft, step);
    let d4 = sweep(d3, width, height, Sweep::BottomLeftToTopRight, step);
    lemma_pass_lowers(d, width, height, Sweep::TopLeftToBottomRight, step, (height - 1) as nat);
    lemma_pass_lowers(d1, width, height, Sweep::BottomRightToTopLeft, step, (height - 1) as nat);
    lemma_pass_lowers(d2, width, height, Sweep::TopRightToBottomLeft, step, (height - 1) as nat);
    lemma_pass_lowers(d3, width, height, Sweep::BottomLeftToTopRight, step, (height - 1) as nat);
    lemma_nowhere_above_trans(d2, d1, d);
    lemma_nowhere_above_trans(d3, d2, d);
    lemma_nowhere_above_trans(d4, d3, d);
}

/// Any number of rounds never raises a distance.
pub proof fn lemma_rounds_lower(d: Seq<u64>, width: nat, height: nat, step: u64, n: nat)
    requires
        sized(d, width, height),
    ensures
        nowhere_above(rounds(d, width, height, step, n), d),
    decreases n,
{
    if n > 0 {
        let p = rounds(d, width, height, step, (n - 1) as nat);
        lemma_rounds_lower(d, width, height, step, (n - 1) as nat);
        lemma_round_lowers(p, width, height, step);
        lemma_nowhere_above_trans(round(p, width, height, step), p, d);
    }
}

/// For every cell, the distance after round `k + 1` is at most the distance
/// after round `k`.
pub proof fn lemma_monotone(d: Seq<u64>, width: nat, height: nat, step: u64, k: nat)
    requires
        sized(d, width, height),
    ensures
        nowhere_above(rounds(d, width, height, step, k + 1), rounds(d, width, height, step, k)),
{
    lemma_rounds_lower(d, width, height, step, k);
    lemma_round_lowers(rounds(d, width, height, step, k), width, height, step);
}

/// Obstacle cells start at distance zero and keep it through every round.
pub proof fn lemma_obstacles_stay_zero(obstacles: Seq<bool>, width: nat, height: nat, step: u64, n: nat)
    requires
        obstacles.len() == width * height,
        width > 0,
        height > 0,
    ensures
        solution(obstacles, width, height, step, n).len() == obstacles.len(),
        forall|k: int|
            0 <= k < obstacles.len() && obstacles[k] ==> #[trigger] solution(obstacles, width, height, step, n)[k]
                == 0,
{
    let d = initial_distances(obstacles);
    lemma_rounds_lower(d, width, height, step, n);
    let r = solution(obstacles, width, height, step, n);
    assert forall|k: int| 0 <= k < obstacles.len() && obstacles[k] implies #[trigger] r[k] == 0 by {
        assert(r[k] <= d[k]);
    }
}

/// Rounds compose: `a` rounds, then `b` more, are `a + b` rounds.
pub proof fn lemma_rounds_compose(d: Seq<u64>, width: nat, height: nat, step: u64, a: nat, b: nat)
    ensures
        rounds(rounds(d, width, height, step, a), width, height, step, b) == rounds(d, width, height, step, a + b),
    decreases b,
{
    if b > 0 {
        lemma_rounds_compose(d, width, height, step, a, (b - 1) as nat);
        assert((a + b - 1) as nat == a + (b - 1) as nat);
    }
}

/// A field that one round leaves unchanged is left unchanged by any number of rounds.
pub proof fn lemma_fixed_point_stays(d: Seq<u64>, width: nat, height: nat, step: u64, n: nat)
    requires
        round(d, width, height, step) == d,
    ensures
        rounds(d, width, height, step, n) == d,
    decreases n,
{
    if n > 0 {
        lemma_fixed_point_stays(d, width, height, step, (n - 1) as nat);
    }
}

/// Once round `k + 1` changes nothing, any further rounds change nothing either.
pub proof fn lemma_converged_stays(d: Seq<u64>, width: nat, height: nat, step: u64, k: nat, more: nat)
    requires
        rounds(d, width, height, step, k + 1) == rounds(d, width, height, step, k),
    ensures
        rounds(d, width, height, step, k + more) == rounds(d, width, height, step, k),
{
    let c = rounds(d, width, height, step, k);
    lemma_fixed_point_stays(c, width, height, step, more);
    lemma_rounds_compose(d, width, height, step, k, more);
}

/// A round leaves a field that holds only the sentinel unchanged.
pub proof fn lemma_round_keeps_unreached(d: Seq<u64>, width: nat, height: nat, step: u64)
    requires
        sized(d, width, height),
        all_unreached(d),
    ensures
        round(d, width, height, step) == d,
{
    lemma_pass_keeps_unreached(d, width, height, Sweep::TopLeftToBottomRight, step, (height - 1) as nat);
    lemma_pass_keeps_unreached(d, width, height, Sweep::BottomRightToTopLeft, step, (height - 1) as nat);
    lemma_pass_keeps_unreached(d, width, height, Sweep::TopRightToBottomLeft, step, (height - 1) as nat);
    lemma_pass_keeps_unreached(d, width, height, Sweep::BottomLeftToTopRight, step, (height - 1) as nat);
}

/// Without obstacles every cell stays at the sentinel, whatever the number of rounds.
pub proof fn lemma_no_obstacles_unreached(obstacles: Seq<bool>, width: nat, height: nat, step: u64, n: nat)
    requires
        obstacles.len() == width * height,
        width > 0,
        height > 0,
        forall|k: int| 0 <= k < obstacles.len() ==> !#[trigger] obstacles[k],
    ensures
        solution(obstacles, width, height, step, n) == initial_distances(obstacles),
        all_unreached(solution(obstacles, width, height, step, n)),
{
    let d = initial_distances(obstacles);
    lemma_round_keeps_unreached(d, width, height, step);
    lemma_fixed_point_stays(d, width, height, step, n);
}

} // verus!
