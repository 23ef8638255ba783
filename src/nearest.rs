use crate::convergence::{lemma_round_relaxes, relaxed_against};
use crate::distance_field::{initial_distances, DistanceField};
use crate::laws::{
    lemma_fixed_point_stays, lemma_obstacles_stay_zero, lemma_pass_lowers, lemma_row_pass_lowers,
    lemma_rounds_lower, lemma_visited_row, sized,
};
use crate::sweep::{
    add_step, behind, relax, round, rounds, solution, sweep, sweep_row, sweep_rows, visited, Sweep,
};
use crate::{cell_index, lemma_cell_index_bounds};
use vstd::prelude::*;

verus! {

/// Distance between two integers.
pub open spec fn gap(a: int, b: int) -> nat {
    if a >= b {
        (a - b) as nat
    } else {
        (b - a) as nat
    }
}

/// Number of grid steps between `(ax, ay)` and `(bx, by)` (the L1 distance).
pub open spec fn l1(ax: int, ay: int, bx: int, by: int) -> nat {
    gap(ax, bx) + gap(ay, by)
}

/// Cost of `k` steps, saturated at the sentinel.
pub open spec fn step_cost(step: u64, k: nat) -> u64 {
    if step * k >= u64::MAX {
        u64::MAX
    } else {
        (step * k) as u64
    }
}

/// `(x, y)` is a cell of a `width` by `height` grid.
pub open spec fn in_grid(width: nat, height: nat, x: int, y: int) -> bool {
    0 <= x < width && 0 <= y < height
}

/// There is an obstacle at `(x, y)`.
pub open spec fn obstacle_at(obstacles: Seq<bool>, width: nat, height: nat, x: int, y: int) -> bool {
    in_grid(width, height, x, y) && obstacles[cell_index(width, x, y)]
}

/// The distance at `(x, y)` is the sentinel, or some obstacle lies within it.
pub open spec fn backed(d: Seq<u64>, obstacles: Seq<bool>, width: nat, height: nat, step: u64, x: int, y: int) -> bool {
    ||| d[cell_index(width, x, y)] == DistanceField::MAX_DISTANCE
    ||| exists|px: int, py: int|
        #[trigger] obstacle_at(obstacles, width, height, px, py) && step_cost(step, l1(x, y, px, py))
            <= d[cell_index(width, x, y)]
}

/// Every distance is backed by an obstacle.
pub open spec fn all_backed(d: Seq<u64>, obstacles: Seq<bool>, width: nat, height: nat, step: u64) -> bool {
    forall|x: int, y: int| in_grid(width, height, x, y) ==> #[trigger] backed(d, obstacles, width, height, step, x, y)
}

/// The distance at `(x, y)` exceeds the one at `(nx, ny)` by at most one step.
pub open spec fn within_step(d: Seq<u64>, width: nat, step: u64, x: int, y: int, nx: int, ny: int) -> bool {
    d[cell_index(width, x, y)] <= add_step(d[cell_index(width, nx, ny)], step)
}

/// No distance exceeds a neighbour's by more than one step.
pub open spec fn locally_consistent(d: Seq<u64>, width: nat, height: nat, step: u64) -> bool {
    forall|x: int, y: int, nx: int, ny: int|
        in_grid(width, height, x, y) && in_grid(width, height, nx, ny) && l1(x, y, nx, ny) == 1
            ==> #[trigger] within_step(d, width, step, x, y, nx, ny)
}

proof fn lemma_cell_index_injective(w: nat, h: nat, x1: int, y1: int, x2: int, y2: int)
    requires
        in_grid(w, h, x1, y1),
        in_grid(w, h, x2, y2),
        cell_index(w, x1, y1) == cell_index(w, x2, y2),
    ensures
        x1 == x2,
        y1 == y2,
{
    if y1 < y2 {
        assert(y1 * w + x1 < y2 * w + x2) by (nonlinear_arith)
            requires
                y1 < y2,
                0 <= x1 < w,
                0 <= x2,
        ;
    } else if y2 < y1 {
        assert(y2 * w + x2 < y1 * w + x1) by (nonlinear_arith)
            requires
                y2 < y1,
                0 <= x2 < w,
                0 <= x1,
        ;
    }
}

pub(crate) proof fn lemma_step_cost_next(step: u64, k: nat)
    ensures
        add_step(step_cost(step, k), step) == step_cost(step, k + 1),
{
    assert(step * (k + 1) == step * k + step) by (nonlinear_arith);
    assert(step * k >= 0) by (nonlinear_arith);
}

pub(crate) proof fn lemma_step_cost_monotone(step: u64, k1: nat, k2: nat)
    requires
        k1 <= k2,
    ensures
        step_cost(step, k1) <= step_cost(step, k2),
{
    assert(step * k1 <= step * k2) by (nonlinear_arith)
        requires
            k1 <= k2,
    ;
    assert(step * k1 >= 0) by (nonlinear_arith);
}

/// Relaxing `(x, y)` from two neighbours keeps every distance backed.
proof fn lemma_update_backed(
    p: Seq<u64>,
    o: Seq<bool>,
    w: nat,
    h: nat,
    step: u64,
    x: int,
    y: int,
    sx: int,
    sy: int,
    vx: int,
    vy: int,
)
    requires
        sized(p, w, h),
        all_backed(p, o, w, h, step),
        in_grid(w, h, x, y),
        in_grid(w, h, sx, sy),
        in_grid(w, h, vx, vy),
        l1(x, y, sx, sy) == 1,
        l1(x, y, vx, vy) == 1,
    ensures
        all_backed(
            p.update(
                cell_index(w, x, y),
                relax(p[cell_index(w, x, y)], p[cell_index(w, sx, sy)], p[cell_index(w, vx, vy)], step),
            ),
            o,
            w,
            h,
            step,
        ),
{
    let c = cell_index(w, x, y);
    let v = relax(p[c], p[cell_index(w, sx, sy)], p[cell_index(w, vx, vy)], step);
    let r = p.update(c, v);
    lemma_cell_index_bounds(w, h, x, y);
    assert forall|x2: int, y2: int| in_grid(w, h, x2, y2) implies #[trigger] backed(r, o, w, h, step, x2, y2) by {
        lemma_cell_index_bounds(w, h, x2, y2);
        let k = cell_index(w, x2, y2);
        if k == c {
            lemma_cell_index_injective(w, h, x, y, x2, y2);
            if v == DistanceField::MAX_DISTANCE {
            } else if v == p[c] {
                assert(backed(p, o, w, h, step, x, y));
                let (px, py) = choose|px: int, py: int|
                    #[trigger] obstacle_at(o, w, h, px, py) && step_cost(step, l1(x, y, px, py)) <= p[c];
                assert(obstacle_at(o, w, h, px, py));
            } else {
                let (nx, ny) = if v == add_step(p[cell_index(w, sx, sy)], step) {
                    (sx, sy)
                } else {
                    (vx, vy)
                };
                let n = cell_index(w, nx, ny);
                assert(v == add_step(p[n], step));
                assert(p[n] != DistanceField::MAX_DISTANCE);
                assert(backed(p, o, w, h, step, nx, ny));
                let (px, py) = choose|px: int, py: int|
                    #[trigger] obstacle_at(o, w, h, px, py) && step_cost(step, l1(nx, ny, px, py)) <= p[n];
                let kn = l1(nx, ny, px, py);
                lemma_step_cost_monotone(step, l1(x, y, px, py), kn + 1);
                lemma_step_cost_next(step, kn);
                assert(obstacle_at(o, w, h, px, py));
            }
        } else {
            assert(r[k] == p[k]);
            assert(backed(p, o, w, h, step, x2, y2));
            if p[k] != DistanceField::MAX_DISTANCE {
                let (px, py) = choose|px: int, py: int|
                    #[trigger] obstacle_at(o, w, h, px, py) && step_cost(step, l1(x2, y2, px, py)) <= p[k];
                assert(obstacle_at(o, w, h, px, py));
            }
        }
    }
}

proof fn lemma_row_pass_backed(d: Seq<u64>, o: Seq<bool>, w: nat, h: nat, y: int, dir: Sweep, step: u64, j: nat)
    requires
        sized(d, w, h),
        all_backed(d, o, w, h, step),
        0 <= y < h,
        0 <= behind(dir.downward(), y) < h,
        j <= w - 1,
    ensures
        all_backed(sweep_row(d, w, y, dir, step, j), o, w, h, step),
    decreases j,
{
    if j > 0 {
        lemma_row_pass_backed(d, o, w, h, y, dir, step, (j - 1) as nat);
        lemma_row_pass_lowers(d, w, h, y, dir, step, (j - 1) as nat);
        let p = sweep_row(d, w, y, dir, step, (j - 1) as nat);
        let x = visited(w, dir.rightward(), j - 1);
        lemma_update_backed(p, o, w, h, step, x, y, behind(dir.rightward(), x), y, x, behind(dir.downward(), y));
    }
}

proof fn lemma_pass_backed(d: Seq<u64>, o: Seq<bool>, w: nat, h: nat, dir: Sweep, step: u64, i: nat)
    requires
        sized(d, w, h),
        all_backed(d, o, w, h, step),
        i <= h - 1,
    ensures
        all_backed(sweep_rows(d, w, h, dir, step, i), o, w, h, step),
    decreases i,
{
    if i > 0 {
        lemma_pass_backed(d, o, w, h, dir, step, (i - 1) as nat);
        lemma_pass_lowers(d, w, h, dir, step, (i - 1) as nat);
        lemma_visited_row(h, dir, i - 1);
        let p = sweep_rows(d, w, h, dir, step, (i - 1) as nat);
        lemma_row_pass_backed(p, o, w, h, visited(h, dir.downward(), i - 1), dir, step, (w - 1) as nat);
    }
}

pub(crate) proof fn lemma_round_backed(d: Seq<u64>, o: Seq<bool>, w: nat, h: nat, step: u64)
    requires
        sized(d, w, h),
        all_backed(d, o, w, h, step),
    ensures
        all_backed(round(d, w, h, step), o, w, h, step),
{
    let n = (h - 1) as nat;
    let d1 = sweep(d, w, h, Sweep::TopLeftToBottomRight, step);
    let d2 = sweep(d1, w, h, Sweep::BottomRightToTopLeft, step);
    let d3 = sweep(d2, w, h, Sweep::TopRightToBottomLeft, step);
    lemma_pass_backed(d, o, w, h, Sweep::TopLeftToBottomRight, step, n);
    lemma_pass_lowers(d, w, h, Sweep::TopLeftToBottomRight, step, n);
    lemma_pass_backed(d1, o, w, h, Sweep::BottomRightToTopLeft, step, n);
    lemma_pass_lowers(d1, w, h, Sweep::BottomRightToTopLeft, step, n);
    lemma_pass_backed(d2, o, w, h, Sweep::TopRightToBottomLeft, step, n);
    lemma_pass_lowers(d2, w, h, Sweep::TopRightToBottomLeft, step, n);
    lemma_pass_backed(d3, o, w, h, Sweep::BottomLeftToTopRight, step, n);
}

/// Every distance of a solution is the sentinel or is backed by an obstacle
/// within that many steps.
pub proof fn lemma_solution_backed(o: Seq<bool>, w: nat, h: nat, step: u64, n: nat)
    requires
        o.len() == w * h,
        w > 0,
        h > 0,
    ensures
        sized(rounds(initial_distances(o), w, h, step, n), w, h),
        all_backed(rounds(initial_distances(o), w, h, step, n), o, w, h, step),
    decreases n,
{
    let d = initial_distances(o);
    if n == 0 {
        assert forall|x: int, y: int| in_grid(w, h, x, y) implies #[trigger] backed(d, o, w, h, step, x, y) by {
            lemma_cell_index_bounds(w, h, x, y);
            if o[cell_index(w, x, y)] {
                assert(obstacle_at(o, w, h, x, y));
                assert(step * 0 == 0) by (nonlinear_arith);
                assert(step_cost(step, l1(x, y, x, y)) <= d[cell_index(w, x, y)]);
            }
        }
    } else {
        lemma_solution_backed(o, w, h, step, (n - 1) as nat);
        lemma_rounds_lower(d, w, h, step, (n - 1) as nat);
        lemma_rounds_lower(d, w, h, step, n);
        lemma_round_backed(rounds(d, w, h, step, (n - 1) as nat), o, w, h, step);
    }
}

/// At a fixed point of a grid at least two cells wide and tall, every
/// distance is within one step of each neighbour's.
proof fn lemma_fixed_consistent(d: Seq<u64>, w: nat, h: nat, step: u64)
    requires
        sized(d, w, h),
        w >= 2,
        h >= 2,
        round(d, w, h, step) == d,
    ensures
        locally_consistent(d, w, h, step),
{
    lemma_round_relaxes(d, w, h, step);
    assert forall|x: int, y: int, nx: int, ny: int|
        in_grid(w, h, x, y) && in_grid(w, h, nx, ny) && l1(x, y, nx, ny) == 1 implies #[trigger] within_step(
        d,
        w,
        step,
        x,
        y,
        nx,
        ny,
    ) by {
        assert(relaxed_against(round(d, w, h, step), d, w, step, x, y, nx, ny));
    }
}

proof fn lemma_within_reach_k(d: Seq<u64>, w: nat, h: nat, step: u64, ox: int, oy: int, k: nat)
    requires
        sized(d, w, h),
        locally_consistent(d, w, h, step),
        in_grid(w, h, ox, oy),
        d[cell_index(w, ox, oy)] == 0,
    ensures
        forall|x: int, y: int|
            in_grid(w, h, x, y) && l1(x, y, ox, oy) == k ==> #[trigger] d[cell_index(w, x, y)] <= step_cost(
                step,
                k,
            ),
    decreases k,
{
    if k > 0 {
        lemma_within_reach_k(d, w, h, step, ox, oy, (k - 1) as nat);
        assert forall|x: int, y: int| in_grid(w, h, x, y) && l1(x, y, ox, oy) == k implies #[trigger] d[cell_index(
            w,
            x,
            y,
        )] <= step_cost(step, k) by {
            let (nx, ny) = if x > ox {
                (x - 1, y)
            } else if x < ox {
                (x + 1, y)
            } else if y > oy {
                (x, y - 1)
            } else {
                (x, y + 1)
            };
            assert(in_grid(w, h, nx, ny));
            assert(l1(nx, ny, ox, oy) == k - 1);
            assert(within_step(d, w, step, x, y, nx, ny));
            assert(d[cell_index(w, nx, ny)] <= step_cost(step, (k - 1) as nat));
            lemma_step_cost_next(step, (k - 1) as nat);
        }
    } else {
        assert forall|x: int, y: int| in_grid(w, h, x, y) && l1(x, y, ox, oy) == k implies #[trigger] d[cell_index(
            w,
            x,
            y,
        )] <= step_cost(step, k) by {
            assert(x == ox && y == oy);
        }
    }
}

/// In a locally consistent field, no distance exceeds the cost of the steps
/// to a cell at distance zero.
proof fn lemma_within_reach(d: Seq<u64>, w: nat, h: nat, step: u64, ox: int, oy: int, x: int, y: int)
    requires
        sized(d, w, h),
        locally_consistent(d, w, h, step),
        in_grid(w, h, ox, oy),
        d[cell_index(w, ox, oy)] == 0,
        in_grid(w, h, x, y),
    ensures
        d[cell_index(w, x, y)] <= step_cost(step, l1(x, y, ox, oy)),
{
    lemma_within_reach_k(d, w, h, step, ox, oy, l1(x, y, ox, oy));
}

/// `m` maps the cells of a `width` by `height` grid onto themselves, is its
/// own inverse, and keeps the number of steps between any two cells.
pub open spec fn grid_symmetry(m: spec_fn(int, int) -> (int, int), width: nat, height: nat) -> bool {
    &&& forall|x: int, y: int|
        #![trigger m(x, y)]
        in_grid(width, height, x, y) ==> in_grid(width, height, m(x, y).0, m(x, y).1)
    &&& forall|x: int, y: int|
        #![trigger m(x, y)]
        in_grid(width, height, x, y) ==> m(m(x, y).0, m(x, y).1) == (x, y)
    &&& forall|ax: int, ay: int, bx: int, by: int|
        #![trigger m(ax, ay), m(bx, by)]
        in_grid(width, height, ax, ay) && in_grid(width, height, bx, by) ==> l1(
            m(ax, ay).0,
            m(ax, ay).1,
            m(bx, by).0,
            m(bx, by).1,
        ) == l1(ax, ay, bx, by)
}

/// The obstacle map looks the same after moving every cell by `m`.
pub open spec fn symmetric_under(
    obstacles: Seq<bool>,
    m: spec_fn(int, int) -> (int, int),
    width: nat,
    height: nat,
) -> bool {
    forall|x: int, y: int|
        #![trigger m(x, y)]
        in_grid(width, height, x, y) ==> obstacles[cell_index(width, m(x, y).0, m(x, y).1)]
            == obstacles[cell_index(width, x, y)]
}

/// The field holds the same distance at `(x, y)` and at its image under `m`.
pub open spec fn field_symmetric_under(
    d: Seq<u64>,
    m: spec_fn(int, int) -> (int, int),
    width: nat,
    height: nat,
) -> bool {
    forall|x: int, y: int|
        #![trigger m(x, y)]
        in_grid(width, height, x, y) ==> d[cell_index(width, x, y)] == d[cell_index(
            width,
            m(x, y).0,
            m(x, y).1,
        )]
}

proof fn lemma_not_above_image(
    d: Seq<u64>,
    o: Seq<bool>,
    w: nat,
    h: nat,
    step: u64,
    m: spec_fn(int, int) -> (int, int),
    x: int,
    y: int,
)
    requires
        sized(d, w, h),
        o.len() == d.len(),
        all_backed(d, o, w, h, step),
        locally_consistent(d, w, h, step),
        forall|k: int| 0 <= k < o.len() && o[k] ==> #[trigger] d[k] == 0,
        grid_symmetry(m, w, h),
        symmetric_under(o, m, w, h),
        in_grid(w, h, x, y),
    ensures
        d[cell_index(w, x, y)] <= d[cell_index(w, m(x, y).0, m(x, y).1)],
{
    let (mx, my) = m(x, y);
    assert(in_grid(w, h, mx, my));
    assert(backed(d, o, w, h, step, mx, my));
    lemma_cell_index_bounds(w, h, mx, my);
    if d[cell_index(w, mx, my)] != DistanceField::MAX_DISTANCE {
        let (px, py) = choose|px: int, py: int|
            #[trigger] obstacle_at(o, w, h, px, py) && step_cost(step, l1(mx, my, px, py)) <= d[cell_index(
                w,
                mx,
                my,
            )];
        let (qx, qy) = m(px, py);
        assert(in_grid(w, h, qx, qy));
        assert(m(mx, my) == (x, y));
        assert(l1(m(mx, my).0, m(mx, my).1, m(px, py).0, m(px, py).1) == l1(mx, my, px, py));
        lemma_cell_index_bounds(w, h, qx, qy);
        assert(o[cell_index(w, qx, qy)]);
        assert(d[cell_index(w, qx, qy)] == 0);
        lemma_within_reach(d, w, h, step, qx, qy, x, y);
    }
}

/// A grid one cell wide or one cell tall is never swept: a round changes nothing.
pub proof fn lemma_thin_grid_unswept(d: Seq<u64>, width: nat, height: nat, step: u64)
    requires
        width > 0,
        height > 0,
        width == 1 || height == 1,
    ensures
        round(d, width, height, step) == d,
{
    let n = (height - 1) as nat;
    lemma_thin_pass_unswept(d, width, height, Sweep::TopLeftToBottomRight, step, n);
    lemma_thin_pass_unswept(d, width, height, Sweep::BottomRightToTopLeft, step, n);
    lemma_thin_pass_unswept(d, width, height, Sweep::TopRightToBottomLeft, step, n);
    lemma_thin_pass_unswept(d, width, height, Sweep::BottomLeftToTopRight, step, n);
}

proof fn lemma_thin_pass_unswept(d: Seq<u64>, w: nat, h: nat, dir: Sweep, step: u64, i: nat)
    requires
        w == 1 || h == 1,
        i <= h - 1,
    ensures
        sweep_rows(d, w, h, dir, step, i) == d,
    decreases i,
{
    if i > 0 {
        lemma_thin_pass_unswept(d, w, h, dir, step, (i - 1) as nat);
    }
}

/// Where the obstacle map is symmetric under a reflection of the
/// grid (any map of the cells onto themselves that is its own inverse and
/// keeps step counts), a solved field that a further round would not change
/// is symmetric under the same reflection.
pub proof fn lemma_converged_symmetric(
    obstacles: Seq<bool>,
    width: nat,
    height: nat,
    step: u64,
    n: nat,
    m: spec_fn(int, int) -> (int, int),
)
    requires
        obstacles.len() == width * height,
        width > 0,
        height > 0,
        grid_symmetry(m, width, height),
        symmetric_under(obstacles, m, width, height),
        round(solution(obstacles, width, height, step, n), width, height, step) == solution(
            obstacles,
            width,
            height,
            step,
            n,
        ),
    ensures
        field_symmetric_under(solution(obstacles, width, height, step, n), m, width, height),
{
    let o = obstacles;
    let w = width;
    let h = height;
    let d = solution(o, w, h, step, n);
    lemma_solution_backed(o, w, h, step, n);
    if w >= 2 && h >= 2 {
        lemma_fixed_consistent(d, w, h, step);
        lemma_obstacles_stay_zero(o, w, h, step, n);
        assert forall|x: int, y: int| #![trigger m(x, y)] in_grid(w, h, x, y) implies d[cell_index(w, x, y)] == d[cell_index(
            w,
            m(x, y).0,
            m(x, y).1,
        )] by {
            lemma_not_above_image(d, o, w, h, step, m, x, y);
            let (mx, my) = m(x, y);
            assert(in_grid(w, h, mx, my));
            lemma_not_above_image(d, o, w, h, step, m, mx, my);
            assert(m(mx, my) == (x, y));
        }
    } else {
        let d0 = initial_distances(o);
        lemma_thin_grid_unswept(d0, w, h, step);
        lemma_fixed_point_stays(d0, w, h, step, n);
        assert forall|x: int, y: int| #![trigger m(x, y)] in_grid(w, h, x, y) implies d[cell_index(w, x, y)] == d[cell_index(
            w,
            m(x, y).0,
            m(x, y).1,
        )] by {
            lemma_cell_index_bounds(w, h, x, y);
            assert(in_grid(w, h, m(x, y).0, m(x, y).1));
            lemma_cell_index_bounds(w, h, m(x, y).0, m(x, y).1);
        }
    }
}

/// A solved field that a further round would not change holds, in every
/// cell, the cost of the steps to the nearest obstacle: no obstacle is
/// cheaper to reach than the stored distance, and unless the distance is the
/// sentinel some obstacle is reached at that cost or less. Grids one cell wide
/// or tall are never swept, so this needs two cells each way.
pub proof fn lemma_converged_nearest(obstacles: Seq<bool>, width: nat, height: nat, step: u64, n: nat)
    requires
        obstacles.len() == width * height,
        width >= 2,
        height >= 2,
        round(solution(obstacles, width, height, step, n), width, height, step) == solution(
            obstacles,
            width,
            height,
            step,
            n,
        ),
    ensures
        all_backed(solution(obstacles, width, height, step, n), obstacles, width, height, step),
        forall|x: int, y: int, px: int, py: int|
            in_grid(width, height, x, y) && #[trigger] obstacle_at(obstacles, width, height, px, py)
                ==> #[trigger] solution(obstacles, width, height, step, n)[cell_index(width, x, y)]
                <= step_cost(step, l1(x, y, px, py)),
{
    let d = solution(obstacles, width, height, step, n);
    lemma_solution_backed(obstacles, width, height, step, n);
    lemma_fixed_consistent(d, width, height, step);
    lemma_obstacles_stay_zero(obstacles, width, height, step, n);
    assert forall|x: int, y: int, px: int, py: int|
        in_grid(width, height, x, y) && #[trigger] obstacle_at(obstacles, width, height, px, py) implies #[trigger] d[cell_index(
        width,
        x,
        y,
    )] <= step_cost(step, l1(x, y, px, py)) by {
        lemma_cell_index_bounds(width, height, px, py);
        lemma_within_reach(d, width, height, step, px, py, x, y);
    }
}

/// Mirroring left to right is a symmetry of every grid.
pub proof fn lemma_left_right_mirror(width: nat, height: nat)
    ensures
        grid_symmetry(|x: int, y: int| (width - 1 - x, y), width, height),
{
}

/// Mirroring top to bottom is a symmetry of every grid.
pub proof fn lemma_top_bottom_mirror(width: nat, height: nat)
    ensures
        grid_symmetry(|x: int, y: int| (x, height - 1 - y), width, height),
{
}

/// Swapping the axes is a symmetry of every square grid.
pub proof fn lemma_transpose(size: nat)
    ensures
        grid_symmetry(|x: int, y: int| (y, x), size, size),
{
}

} // verus!
