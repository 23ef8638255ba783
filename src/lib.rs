//! Distance fields over 2D grids, computed by fast sweeping.
//!
//! An obstacle map marks blocked cells; the solver fills a distance field of
//! the same size with the grid-step distance of every cell to its nearest
//! obstacle. Distances are unsigned integers in units of the step cost, and
//! `u64::MAX` stands for "not reached".
use vstd::prelude::*;

mod convergence;
mod distance_field;
mod laws;
mod naive;
mod nearest;
mod obstacles;
mod pgm;
mod sweep;

pub use crate::convergence::{
    lemma_converged_after, lemma_round_relaxes, lemma_rounds_reach, lemma_solution_symmetric,
    pass_relaxed, relaxed_against,
};
pub use crate::distance_field::DistanceField;
pub use crate::distance_field::{initial_distance, initial_distances};
pub use crate::laws::{
    all_unreached, lemma_converged_stays, lemma_fixed_point_stays, lemma_monotone,
    lemma_no_obstacles_unreached, lemma_obstacles_stay_zero, lemma_round_keeps_unreached,
    lemma_round_lowers, lemma_rounds_compose, lemma_rounds_lower, nowhere_above, sized,
};
pub use crate::naive::{DistanceFieldAlgorithm, NaiveFastSweepingMethod};
pub use crate::nearest::{
    all_backed, backed, field_symmetric_under, gap, grid_symmetry, in_grid, l1,
    lemma_converged_nearest, lemma_converged_symmetric, lemma_left_right_mirror, lemma_solution_backed,
    lemma_thin_grid_unswept, lemma_top_bottom_mirror, lemma_transpose, locally_consistent,
    obstacle_at, step_cost, symmetric_under, within_step,
};
pub use crate::obstacles::Obstacles;
pub use crate::pgm::{
    decimal, distance_pixel, max_finite, obstacle_pixel, pgm_header, pgm_image, SavePgm,
    PGM_MAX_VALUE,
};
pub use crate::sweep::{
    add_step, fast_sweeping, min_distance, perform_sweeps, relax, round, rounds, solution, sweep,
    sweep_pass, sweep_row, sweep_rows, try_fast_sweeping, DimensionMismatch, Sweep,
};

verus! {

/// Row-major linear index of cell `(x, y)` in a grid of the given width.
pub open spec fn cell_index(width: nat, x: int, y: int) -> int {
    y * width + x
}

/// A cell inside a `width` by `height` grid has an index inside its storage.
pub proof fn lemma_cell_index_bounds(width: nat, height: nat, x: int, y: int)
    requires
        0 <= x < width,
        0 <= y < height,
    ensures
        0 <= cell_index(width, x, y) < width * height,
{
    assert(0 <= y * width + x < width * height) by (nonlinear_arith)
        requires
            0 <= x < width,
            0 <= y < height,
    ;
}

/// A dense row-major grid of cells.
pub trait Grid {
    type Item;

    /// Number of columns.
    spec fn grid_width(&self) -> nat;

    /// Number of rows.
    spec fn grid_height(&self) -> nat;

    /// The cells in row-major order.
    spec fn cells(&self) -> Seq<Self::Item>;

    /// The storage is well formed: it holds `grid_width() * grid_height()`
    /// cells, a number that fits in `usize`.
    spec fn grid_wf(&self) -> bool;

    /// Reads the cell at `(x, y)`.
    fn get_at(&self, x: usize, y: usize) -> (r: &Self::Item)
        requires
            self.grid_wf(),
            self.cells().len() == self.grid_width() * self.grid_height(),
            x < self.grid_width(),
            y < self.grid_height(),
        ensures
            *r == self.cells()[cell_index(self.grid_width(), x as int, y as int)],
    ;

    /// Overwrites the cell at `(x, y)`.
    fn set_at(&mut self, x: usize, y: usize, value: Self::Item)
        requires
            old(self).grid_wf(),
            old(self).cells().len() == old(self).grid_width() * old(self).grid_height(),
            x < old(self).grid_width(),
            y < old(self).grid_height(),
        ensures
            final(self).grid_wf(),
            final(self).grid_width() == old(self).grid_width(),
            final(self).grid_height() == old(self).grid_height(),
            final(self).cells() == old(self).cells().update(
                cell_index(old(self).grid_width(), x as int, y as int),
                value,
            ),
    ;
}

} // verus!
