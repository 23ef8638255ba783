use crate::distance_field::DistanceField;
use crate::obstacles::Obstacles;
use crate::sweep::{fast_sweeping, solution};
use vstd::prelude::*;

verus! {

/// A way of filling a distance field from an obstacle map.
pub trait DistanceFieldAlgorithm {
    /// The field this algorithm computes for a `width` by `height` obstacle map.
    spec fn computed(&self, obstacles: Seq<bool>, width: nat, height: nat) -> Seq<u64>;

    /// Overwrites `distance_field` with the distances for `obstacles`.
    fn calculate_distance_field(&self, distance_field: &mut DistanceField, obstacles: &Obstacles)
        requires
            old(distance_field).wf(),
            obstacles.wf(),
            old(distance_field).spec_width() == obstacles.spec_width(),
            old(distance_field).spec_height() == obstacles.spec_height(),
        ensures
            final(distance_field).wf(),
            final(distance_field).spec_width() == obstacles.spec_width(),
            final(distance_field).spec_height() == obstacles.spec_height(),
            final(distance_field)@ == self.computed(obstacles@, obstacles.spec_width(), obstacles.spec_height()),
    ;
}

/// Fast sweeping with a fixed step cost and a fixed number of rounds.
pub struct NaiveFastSweepingMethod {
    step_size: u64,
    num_iter: usize,
}

impl NaiveFastSweepingMethod {
    /// Per-step cost.
    pub closed spec fn spec_step_size(&self) -> u64 {
        self.step_size
    }

    /// Number of rounds.
    pub closed spec fn spec_num_iter(&self) -> nat {
        self.num_iter as nat
    }

    /// A solver that runs `num_iter` rounds with the per-step cost `step_size`.
    pub fn new(step_size: u64, num_iter: usize) -> (r: Self)
        ensures
            r.spec_step_size() == step_size,
            r.spec_num_iter() == num_iter,
    {
        Self { step_size, num_iter }
    }
}

impl DistanceFieldAlgorithm for NaiveFastSweepingMethod {
    open spec fn computed(&self, obstacles: Seq<bool>, width: nat, height: nat) -> Seq<u64> {
        solution(obstacles, width, height, self.spec_step_size(), self.spec_num_iter())
    }

    fn calculate_distance_field(&self, distance_field: &mut DistanceField, obstacles: &Obstacles) {
        fast_sweeping(distance_field, obstacles, self.step_size, self.num_iter);
    }
}

} // verus!
