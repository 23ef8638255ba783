use crate::distance_field::{initial_distances, DistanceField};
use crate::laws::{
    lemma_nowhere_above_trans, lemma_pass_lowers, lemma_round_lowers, lemma_row_pass_lowers,
    lemma_rounds_lower, lemma_visited_row, nowhere_above, sized,
};
use crate::nearest::{
    backed, field_symmetric_under, grid_symmetry, in_grid, l1, lemma_converged_symmetric,
    lemma_round_backed, lemma_solution_backed, lemma_step_cost_next,
    lemma_thin_grid_unswept, obstacle_at, step_cost, symmetric_under,
};
use crate::sweep::{add_step, behind, round, rounds, solution, sweep, sweep_row, sweep_rows, visited, Sweep};
use crate::{cell_index, lemma_cell_index_bounds};
use vstd::prelude::*;

verus! {

/// The distance at `(x, y)` in `r` exceeds the one at `(nx, ny)` in `d` by at most one step.
pub open spec fn relaxed_against(r: Seq<u64>, d: Seq<u64>, width: nat, step: u64, x: int, y: int, nx: int, ny: int) -> bool {
    r[cell_index(width, x, y)] <= add_step(d[cell_index(width, nx, ny)], step)
}

/// The cell a pass visits `jj`-th in its `ii`-th row ends up, in `r`, within
/// one step of both neighbours it reads, as they stood in `d`.
pub open spec fn pass_relaxed(r: Seq<u64>, d: Seq<u64>, w: nat, h: nat, dir: Sweep, step: u64, ii: int, jj: int) -> bool {
    let x = visited(w, dir.rightward(), jj);
    let y = visited(h, dir.downward(), ii);
    &&& relaxed_against(r, d, w, step, x, y, behind(dir.rightward(), x), y)
    &&& relaxed_against(r, d, w, step, x, y, x, behind(dir.downward(), y))
}

proof fn lemma_add_step_monotone(a: u64, b: u64, step: u64)
    requires
        a <= b,
    ensures
        add_step(a, step) <= add_step(b, step),
{
}

proof fn lemma_row_relaxes(d0: Seq<u64>, d: Seq<u64>, w: nat, h: nat, ii: int, dir: Sweep, step: u64, j: nat)
    requires
        sized(d, w, h),
        nowhere_above(d, d0),
        0 <= ii < h - 1,
        j <= w - 1,
    ensures
        forall|jj: int|
            0 <= jj < j ==> #[trigger] pass_relaxed(
                sweep_row(d, w, visited(h, dir.downward(), ii), dir, step, j),
                d0,
                w,
                h,
                dir,
                step,
                ii,
                jj,
            ),
    decreases j,
{
    let y = visited(h, dir.downward(), ii);
    lemma_visited_row(h, dir, ii);
    if j > 0 {
        lemma_row_relaxes(d0, d, w, h, ii, dir, step, (j - 1) as nat);
        lemma_row_pass_lowers(d, w, h, y, dir, step, (j - 1) as nat);
        let p = sweep_row(d, w, y, dir, step, (j - 1) as nat);
        let r = sweep_row(d, w, y, dir, step, j);
        let x = visited(w, dir.rightward(), j - 1);
        lemma_cell_index_bounds(w, h, x, y);
        lemma_cell_index_bounds(w, h, behind(dir.rightward(), x), y);
        lemma_cell_index_bounds(w, h, x, behind(dir.downward(), y));
        assert forall|k: int| 0 <= k < r.len() implies #[trigger] r[k] <= p[k] by {}
        assert forall|jj: int| 0 <= jj < j implies #[trigger] pass_relaxed(r, d0, w, h, dir, step, ii, jj) by {
            let xj = visited(w, dir.rightward(), jj);
            lemma_cell_index_bounds(w, h, xj, y);
            if jj < j - 1 {
                assert(pass_relaxed(p, d0, w, h, dir, step, ii, jj));
            } else {
                let s = cell_index(w, behind(dir.rightward(), x), y);
                let v = cell_index(w, x, behind(dir.downward(), y));
                assert(p[s] <= d[s] && d[s] <= d0[s]);
                assert(p[v] <= d[v] && d[v] <= d0[v]);
                lemma_add_step_monotone(p[s], d0[s], step);
                lemma_add_step_monotone(p[v], d0[v], step);
            }
        }
    }
}

proof fn lemma_rows_relax(d: Seq<u64>, w: nat, h: nat, dir: Sweep, step: u64, i: nat)
    requires
        sized(d, w, h),
        i <= h - 1,
    ensures
        forall|ii: int, jj: int|
            0 <= ii < i && 0 <= jj < w - 1 ==> #[trigger] pass_relaxed(
                sweep_rows(d, w, h, dir, step, i),
                d,
                w,
                h,
                dir,
                step,
                ii,
                jj,
            ),
    decreases i,
{
    if i > 0 {
        lemma_rows_relax(d, w, h, dir, step, (i - 1) as nat);
        lemma_pass_lowers(d, w, h, dir, step, (i - 1) as nat);
        lemma_visited_row(h, dir, i - 1);
        let p = sweep_rows(d, w, h, dir, step, (i - 1) as nat);
        let y = visited(h, dir.downward(), i - 1);
        lemma_row_pass_lowers(p, w, h, y, dir, step, (w - 1) as nat);
        lemma_row_relaxes(d, p, w, h, i - 1, dir, step, (w - 1) as nat);
        let r = sweep_rows(d, w, h, dir, step, i);
        assert forall|ii: int, jj: int| 0 <= ii < i && 0 <= jj < w - 1 implies #[trigger] pass_relaxed(
            r,
            d,
            w,
            h,
            dir,
            step,
            ii,
            jj,
        ) by {
            if ii < i - 1 {
                lemma_visited_row(h, dir, ii);
                let xj = visited(w, dir.rightward(), jj);
                lemma_cell_index_bounds(w, h, xj, visited(h, dir.downward(), ii));
                assert(pass_relaxed(p, d, w, h, dir, step, ii, jj));
            }
        }
    }
}

/// After one round on a grid at least two cells wide and tall, every distance
/// is within one step of each neighbour's distance before the round.
pub proof fn lemma_round_relaxes(d: Seq<u64>, width: nat, height: nat, step: u64)
    requires
        sized(d, width, height),
        width >= 2,
        height >= 2,
    ensures
        forall|x: int, y: int, nx: int, ny: int|
            in_grid(width, height, x, y) && in_grid(width, height, nx, ny) && l1(x, y, nx, ny) == 1
                ==> #[trigger] relaxed_against(round(d, width, height, step), d, width, step, x, y, nx, ny),
{
    let w = width;
    let h = height;
    let n = (h - 1) as nat;
    let tl = Sweep::TopLeftToBottomRight;
    let br = Sweep::BottomRightToTopLeft;
    let tr = Sweep::TopRightToBottomLeft;
    let bl = Sweep::BottomLeftToTopRight;
    let d1 = sweep(d, w, h, tl, step);
    let d2 = sweep(d1, w, h, br, step);
    let d3 = sweep(d2, w, h, tr, step);
    let d4 = sweep(d3, w, h, bl, step);
    lemma_pass_lowers(d, w, h, tl, step, n);
    lemma_pass_lowers(d1, w, h, br, step, n);
    lemma_pass_lowers(d2, w, h, tr, step, n);
    lemma_pass_lowers(d3, w, h, bl, step, n);
    lemma_rows_relax(d, w, h, tl, step, n);
    lemma_rows_relax(d1, w, h, br, step, n);
    lemma_rows_relax(d2, w, h, tr, step, n);
    lemma_rows_relax(d3, w, h, bl, step, n);
    lemma_nowhere_above_trans(d4, d3, d2);
    lemma_nowhere_above_trans(d4, d2, d1);
    lemma_nowhere_above_trans(d2, d1, d);
    lemma_nowhere_above_trans(d3, d2, d);
    assert forall|x: int, y: int, nx: int, ny: int|
        in_grid(w, h, x, y) && in_grid(w, h, nx, ny) && l1(x, y, nx, ny) == 1 implies #[trigger] relaxed_against(
        d4,
        d,
        w,
        step,
        x,
        y,
        nx,
        ny,
    ) by {
        lemma_cell_index_bounds(w, h, x, y);
        lemma_cell_index_bounds(w, h, nx, ny);
        let c = cell_index(w, x, y);
        let k = cell_index(w, nx, ny);
        let (src, dir, ii, jj) = if nx == x - 1 {
            if y >= 1 {
                (d, tl, y - 1, x - 1)
            } else {
                (d3, bl, h - 2 - y, x - 1)
            }
        } else if nx == x + 1 {
            if y <= h - 2 {
                (d1, br, h - 2 - y, w - 2 - x)
            } else {
                (d2, tr, y - 1, w - 2 - x)
            }
        } else if ny == y - 1 {
            if x >= 1 {
                (d, tl, y - 1, x - 1)
            } else {
                (d2, tr, y - 1, w - 2 - x)
            }
        } else {
            if x <= w - 2 {
                (d1, br, h - 2 - y, w - 2 - x)
            } else {
                (d3, bl, h - 2 - y, x - 1)
            }
        };
        let out = sweep(src, w, h, dir, step);
        assert(pass_relaxed(out, src, w, h, dir, step, ii, jj));
        assert(out[c] <= add_step(src[k], step));
        assert(d4[c] <= out[c]);
        assert(src[k] <= d[k]);
        lemma_add_step_monotone(src[k], d[k], step);
    }
}

/// After `k` rounds, every cell within `k` steps of an obstacle holds at most
/// the cost of those steps.
pub proof fn lemma_rounds_reach(obstacles: Seq<bool>, width: nat, height: nat, step: u64, k: nat)
    requires
        obstacles.len() == width * height,
        width >= 2,
        height >= 2,
    ensures
        forall|x: int, y: int, px: int, py: int|
            in_grid(width, height, x, y) && #[trigger] obstacle_at(obstacles, width, height, px, py) && l1(
                x,
                y,
                px,
                py,
            ) <= k ==> #[trigger] solution(obstacles, width, height, step, k)[cell_index(width, x, y)]
                <= step_cost(step, l1(x, y, px, py)),
    decreases k,
{
    let w = width;
    let h = height;
    let o = obstacles;
    let d0 = initial_distances(o);
    if k == 0 {
        assert forall|x: int, y: int, px: int, py: int|
            in_grid(w, h, x, y) && #[trigger] obstacle_at(o, w, h, px, py) && l1(x, y, px, py) <= k implies #[trigger] solution(
            o,
            w,
            h,
            step,
            k,
        )[cell_index(w, x, y)] <= step_cost(step, l1(x, y, px, py)) by {
            lemma_cell_index_bounds(w, h, x, y);
        }
    } else {
        lemma_rounds_reach(o, w, h, step, (k - 1) as nat);
        let d = solution(o, w, h, step, (k - 1) as nat);
        lemma_rounds_lower(d0, w, h, step, (k - 1) as nat);
        lemma_round_lowers(d, w, h, step);
        lemma_round_relaxes(d, w, h, step);
        let r = round(d, w, h, step);
        assert forall|x: int, y: int, px: int, py: int|
            in_grid(w, h, x, y) && #[trigger] obstacle_at(o, w, h, px, py) && l1(x, y, px, py) <= k implies #[trigger] solution(
            o,
            w,
            h,
            step,
            k,
        )[cell_index(w, x, y)] <= step_cost(step, l1(x, y, px, py)) by {
            lemma_cell_index_bounds(w, h, x, y);
            let c = cell_index(w, x, y);
            let dist = l1(x, y, px, py);
            if dist < k {
                assert(d[c] <= step_cost(step, dist));
                assert(r[c] <= d[c]);
            } else {
                let (nx, ny) = if x > px {
                    (x - 1, y)
                } else if x < px {
                    (x + 1, y)
                } else if y > py {
                    (x, y - 1)
                } else {
                    (x, y + 1)
                };
                assert(in_grid(w, h, nx, ny));
                assert(l1(nx, ny, px, py) == dist - 1);
                lemma_cell_index_bounds(w, h, nx, ny);
                let kn = cell_index(w, nx, ny);
                assert(d[kn] <= step_cost(step, (dist - 1) as nat));
                assert(relaxed_against(r, d, w, step, x, y, nx, ny));
                lemma_add_step_monotone(d[kn], step_cost(step, (dist - 1) as nat), step);
                lemma_step_cost_next(step, (dist - 1) as nat);
            }
        }
    }
}

/// After at least `width + height - 2` rounds a further round changes nothing.
pub proof fn lemma_converged_after(obstacles: Seq<bool>, width: nat, height: nat, step: u64, n: nat)
    requires
        obstacles.len() == width * height,
        width > 0,
        height > 0,
        n >= width + height - 2,
    ensures
        round(solution(obstacles, width, height, step, n), width, height, step) == solution(
            obstacles,
            width,
            height,
            step,
            n,
        ),
{
    let w = width;
    let h = height;
    let o = obstacles;
    let d = solution(o, w, h, step, n);
    lemma_solution_backed(o, w, h, step, n);
    if w >= 2 && h >= 2 {
        lemma_rounds_reach(o, w, h, step, n);
        lemma_round_lowers(d, w, h, step);
        lemma_round_backed(d, o, w, h, step);
        let r = round(d, w, h, step);
        assert forall|x: int, y: int| in_grid(w, h, x, y) implies r[cell_index(w, x, y)] == d[cell_index(w, x, y)] by {
            lemma_cell_index_bounds(w, h, x, y);
            let c = cell_index(w, x, y);
            assert(r[c] <= d[c]);
            assert(backed(r, o, w, h, step, x, y));
            if r[c] != DistanceField::MAX_DISTANCE {
                let (px, py) = choose|px: int, py: int|
                    #[trigger] obstacle_at(o, w, h, px, py) && step_cost(step, l1(x, y, px, py)) <= r[c];
                assert(l1(x, y, px, py) <= n);
                assert(d[c] <= step_cost(step, l1(x, y, px, py)));
            }
        }
        assert forall|k: int| 0 <= k < d.len() implies r[k] == d[k] by {
            let y = k / (w as int);
            let x = k % (w as int);
            assert(k == y * w + x && 0 <= x < w && 0 <= y < h) by (nonlinear_arith)
                requires
                    0 <= k < w * h,
                    w > 0,
                    y == k / (w as int),
                    x == k % (w as int),
            ;
            assert(in_grid(w, h, x, y));
        }
        assert(r =~= d);
    } else {
        lemma_thin_grid_unswept(d, w, h, step);
    }
}

/// Where the obstacle map is symmetric under a reflection of the grid (any
/// map of the cells onto themselves that is its own inverse and keeps step
/// counts), the field solved with at least `width + height - 2` rounds is
/// symmetric under the same reflection.
pub proof fn lemma_solution_symmetric(
    obstacles: Seq<bool>,
    width: nat,
    height: nat,
    step: u64,
    n: nat,
    m: spec_fn(int, int) -> (int, int),
)
    requires
        obstacles.len() == width * height,
        width > 0,
        height > 0,
        n >= width + height - 2,
        grid_symmetry(m, width, height),
        symmetric_under(obstacles, m, width, height),
    ensures
        field_symmetric_under(solution(obstacles, width, height, step, n), m, width, height),
{
    lemma_converged_after(obstacles, width, height, step, n);
    lemma_converged_symmetric(obstacles, width, height, step, n, m);
}

} // verus!
