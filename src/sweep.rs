use crate::distance_field::{initial_distances, DistanceField};
use crate::obstacles::Obstacles;
use crate::laws::lemma_obstacles_stay_zero;
use crate::{cell_index, lemma_cell_index_bounds, Grid};
use vstd::prelude::*;

verus! {

/// `d + step`, where a sum past the sentinel stays at the sentinel.
pub open spec fn add_step(d: u64, step: u64) -> u64 {
    if d + step > u64::MAX {
        u64::MAX
    } else {
        (d + step) as u64
    }
}

/// The smaller of two distances.
pub open spec fn min_distance(a: u64, b: u64) -> u64 {
    if a <= b {
        a
    } else {
        b
    }
}

/// The local update rule: `min(center, a + step, b + step)`.
pub open spec fn relax(center: u64, a: u64, b: u64, step: u64) -> u64 {
    min_distance(center, min_distance(add_step(a, step), add_step(b, step)))
}

/// The four passes of a round, named by where they start and end.
#[derive(Clone, Copy, Debug, PartialEq, Eq)]
pub enum Sweep {
    TopLeftToBottomRight,
    BottomRightToTopLeft,
    TopRightToBottomLeft,
    BottomLeftToTopRight,
}

impl Sweep {
    /// Columns are visited left to right; the horizontal neighbour is the left one.
    pub open spec fn rightward(self) -> bool {
        self is TopLeftToBottomRight || self is BottomLeftToTopRight
    }

    /// Rows are visited top to bottom; the vertical neighbour is the one above.
    pub open spec fn downward(self) -> bool {
        self is TopLeftToBottomRight || self is TopRightToBottomLeft
    }
}

/// The `j`-th position visited along an axis of `len` cells; the first or last
/// cell (the one the pass starts from) is never visited.
pub open spec fn visited(len: nat, forward: bool, j: int) -> int {
    if forward {
        j + 1
    } else {
        len - 2 - j
    }
}

/// The neighbour of position `p` that a pass has already visited.
pub open spec fn behind(forward: bool, p: int) -> int {
    if forward {
        p - 1
    } else {
        p + 1
    }
}

/// `d` after relaxing the first `j` cells of row `y`, in the order of `dir`,
/// each from the values left by the cells before it.
pub open spec fn sweep_row(d: Seq<u64>, width: nat, y: int, dir: Sweep, step: u64, j: nat) -> Seq<u64>
    decreases j,
{
    if j == 0 {
        d
    } else {
        let p = sweep_row(d, width, y, dir, step, (j - 1) as nat);
        let x = visited(width, dir.rightward(), j - 1);
        let c = cell_index(width, x, y);
        let side = cell_index(width, behind(dir.rightward(), x), y);
        let vertical = cell_index(width, x, behind(dir.downward(), y));
        p.update(c, relax(p[c], p[side], p[vertical], step))
    }
}

/// `d` after the first `i` rows of the pass `dir`.
pub open spec fn sweep_rows(d: Seq<u64>, width: nat, height: nat, dir: Sweep, step: u64, i: nat) -> Seq<u64>
    decreases i,
{
    if i == 0 {
        d
    } else {
        let p = sweep_rows(d, width, height, dir, step, (i - 1) as nat);
        sweep_row(p, width, visited(height, dir.downward(), i - 1), dir, step, (width - 1) as nat)
    }
}

/// One full pass `dir` over a `width` by `height` grid.
pub open spec fn sweep(d: Seq<u64>, width: nat, height: nat, dir: Sweep, step: u64) -> Seq<u64> {
    sweep_rows(d, width, height, dir, step, (height - 1) as nat)
}

/// One round: the four passes in their fixed order.
pub open spec fn round(d: Seq<u64>, width: nat, height: nat, step: u64) -> Seq<u64> {
    let d1 = sweep(d, width, height, Sweep::TopLeftToBottomRight, step);
    let d2 = sweep(d1, width, height, Sweep::BottomRightToTopLeft, step);
    let d3 = sweep(d2, width, height, Sweep::TopRightToBottomLeft, step);
    sweep(d3, width, height, Sweep::BottomLeftToTopRight, step)
}

/// `d` after `n` rounds.
pub open spec fn rounds(d: Seq<u64>, width: nat, height: nat, step: u64, n: nat) -> Seq<u64>
    decreases n,
{
    if n == 0 {
        d
    } else {
        round(rounds(d, width, height, step, (n - 1) as nat), width, height, step)
    }
}

/// The field that solving `obstacles` with `n` rounds yields.
pub open spec fn solution(obstacles: Seq<bool>, width: nat, height: nat, step: u64, n: nat) -> Seq<u64> {
    rounds(initial_distances(obstacles), width, height, step, n)
}

/// The smallest of three distances.
fn min3(a: u64, b: u64, c: u64) -> (r: u64)
    ensures
        r == min_distance(a, min_distance(b, c)),
{
    let m = if b <= c {
        b
    } else {
        c
    };
    if a <= m {
        a
    } else {
        m
    }
}

/// Runs one pass over the field, in place.
pub fn sweep_pass(distance_field: &mut DistanceField, step: u64, dir: Sweep)
    requires
        old(distance_field).wf(),
    ensures
        final(distance_field).wf(),
        final(distance_field).spec_width() == old(distance_field).spec_width(),
        final(distance_field).spec_height() == old(distance_field).spec_height(),
        final(distance_field)@ == sweep(
            old(distance_field)@,
            old(distance_field).spec_width(),
            old(distance_field).spec_height(),
            dir,
            step,
        ),
{
    let width = distance_field.width();
    let height = distance_field.height();
    let ghost w = width as nat;
    let ghost h = height as nat;
    let ghost d0 = distance_field@;
    let rightward = match dir {
        Sweep::TopLeftToBottomRight | Sweep::BottomLeftToTopRight => true,
        _ => false,
    };
    let downward = match dir {
        Sweep::TopLeftToBottomRight | Sweep::TopRightToBottomLeft => true,
        _ => false,
    };
    let mut i: usize = 0;
    while i < height - 1
        invariant
            distance_field.wf(),
            distance_field.spec_width() == w,
            distance_field.spec_height() == h,
            w == width,
            h == height,
            rightward == dir.rightward(),
            downward == dir.downward(),
            i <= height - 1,
            distance_field@ == sweep_rows(d0, w, h, dir, step, i as nat),
        decreases height - 1 - i,
    {
        let y: usize = if downward {
            i + 1
        } else {
            height - 2 - i
        };
        let y_behind: usize = if downward {
            y - 1
        } else {
            y + 1
        };
        let ghost row_start = distance_field@;
        let mut j: usize = 0;
        while j < width - 1
            invariant
                distance_field.wf(),
                distance_field.spec_width() == w,
                distance_field.spec_height() == h,
                w == width,
                h == height,
                rightward == dir.rightward(),
                downward == dir.downward(),
                i < height - 1,
                y == visited(h, downward, i as int),
                y_behind == behind(downward, y as int),
                j <= width - 1,
                row_start == sweep_rows(d0, w, h, dir, step, i as nat),
                distance_field@ == sweep_row(row_start, w, y as int, dir, step, j as nat),
            decreases width - 1 - j,
        {
            let x: usize = if rightward {
                j + 1
            } else {
                width - 2 - j
            };
            let x_behind: usize = if rightward {
                x - 1
            } else {
                x + 1
            };
            proof {
                lemma_cell_index_bounds(w, h, x as int, y as int);
                lemma_cell_index_bounds(w, h, x_behind as int, y as int);
                lemma_cell_index_bounds(w, h, x as int, y_behind as int);
            }
            let center = *distance_field.get_at(x, y);
            let side = *distance_field.get_at(x_behind, y);
            let vertical = *distance_field.get_at(x, y_behind);
            let new_value = min3(center, side.saturating_add(step), vertical.saturating_add(step));
            distance_field.set_at(x, y, new_value);
            j += 1;
        }
        i += 1;
    }
}

/// Runs `num_iter` rounds of the four passes, in place.
pub fn perform_sweeps(distance_field: &mut DistanceField, step: u64, num_iter: usize)
    requires
        old(distance_field).wf(),
    ensures
        final(distance_field).wf(),
        final(distance_field).spec_width() == old(distance_field).spec_width(),
        final(distance_field).spec_height() == old(distance_field).spec_height(),
        final(distance_field)@ == rounds(
            old(distance_field)@,
            old(distance_field).spec_width(),
            old(distance_field).spec_height(),
            step,
            num_iter as nat,
        ),
{
    let ghost w = distance_field.spec_width();
    let ghost h = distance_field.spec_height();
    let ghost d0 = distance_field@;
    let mut k: usize = 0;
    while k < num_iter
        invariant
            distance_field.wf(),
            distance_field.spec_width() == w,
            distance_field.spec_height() == h,
            k <= num_iter,
            distance_field@ == rounds(d0, w, h, step, k as nat),
        decreases num_iter - k,
    {
        sweep_pass(distance_field, step, Sweep::TopLeftToBottomRight);
        sweep_pass(distance_field, step, Sweep::BottomRightToTopLeft);
        sweep_pass(distance_field, step, Sweep::TopRightToBottomLeft);
        sweep_pass(distance_field, step, Sweep::BottomLeftToTopRight);
        k += 1;
    }
}

/// Fills `distance_field` with the distance of every cell to the nearest
/// obstacle: zero on obstacles, then `num_iter` rounds of sweeps with the
/// given per-step cost.
pub fn fast_sweeping(distance_field: &mut DistanceField, obstacles: &Obstacles, step_size: u64, num_iter: usize)
    requires
        old(distance_field).wf(),
        obstacles.wf(),
        old(distance_field).spec_width() == obstacles.spec_width(),
        old(distance_field).spec_height() == obstacles.spec_height(),
    ensures
        final(distance_field).wf(),
        final(distance_field).spec_width() == obstacles.spec_width(),
        final(distance_field).spec_height() == obstacles.spec_height(),
        final(distance_field)@ == solution(
            obstacles@,
            obstacles.spec_width(),
            obstacles.spec_height(),
            step_size,
            num_iter as nat,
        ),
        forall|k: int| 0 <= k < obstacles@.len() && obstacles@[k] ==> #[trigger] final(distance_field)@[k] == 0,
{
    distance_field.initialize(obstacles);
    perform_sweeps(distance_field, step_size, num_iter);
    proof {
        lemma_obstacles_stay_zero(
            obstacles@,
            obstacles.spec_width(),
            obstacles.spec_height(),
            step_size,
            num_iter as nat,
        );
    }
}

/// The distance field and the obstacle map differ in width or height.
#[derive(Clone, Copy, Debug, PartialEq, Eq)]
pub struct DimensionMismatch {
    pub field_width: usize,
    pub field_height: usize,
    pub obstacles_width: usize,
    pub obstacles_height: usize,
}

/// `fast_sweeping` behind a check of the dimensions: a field whose width or
/// height differs from the obstacle map's is rejected and left untouched.
pub fn try_fast_sweeping(
    distance_field: &mut DistanceField,
    obstacles: &Obstacles,
    step_size: u64,
    num_iter: usize,
) -> (r: Result<(), DimensionMismatch>)
    requires
        old(distance_field).wf(),
        obstacles.wf(),
    ensures
        r is Ok <==> (old(distance_field).spec_width() == obstacles.spec_width()
            && old(distance_field).spec_height() == obstacles.spec_height()),
        r is Ok ==> final(distance_field)@ == solution(
            obstacles@,
            obstacles.spec_width(),
            obstacles.spec_height(),
            step_size,
            num_iter as nat,
        ),
        r is Err ==> final(distance_field)@ == old(distance_field)@,
        r matches Err(e) ==> (e.field_width == old(distance_field).spec_width()
            && e.field_height == old(distance_field).spec_height()
            && e.obstacles_width == obstacles.spec_width()
            && e.obstacles_height == obstacles.spec_height()),
        final(distance_field).wf(),
        final(distance_field).spec_width() == old(distance_field).spec_width(),
        final(distance_field).spec_height() == old(distance_field).spec_height(),
{
    if distance_field.width() != obstacles.width() || distance_field.height() != obstacles.height() {
        return Err(
            DimensionMismatch {
                field_width: distance_field.width(),
                field_height: distance_field.height(),
                obstacles_width: obstacles.width(),
                obstacles_height: obstacles.height(),
            },
        );
    }
    fast_sweeping(distance_field, obstacles, step_size, num_iter);
    Ok(())
}

} // verus!
