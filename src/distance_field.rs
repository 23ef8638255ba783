use crate::obstacles::Obstacles;
use crate::Grid;
use vstd::prelude::*;

verus! {

/// Distance of every cell to its nearest obstacle, in units of the step cost.
pub struct DistanceField {
    distances: Vec<u64>,
    width: usize,
    height: usize,
}

/// The distance an obstacle cell starts from.
pub open spec fn initial_distance(is_obstacle: bool) -> u64 {
    if is_obstacle {
        0
    } else {
        DistanceField::MAX_DISTANCE
    }
}

/// The distances before any sweep: zero on obstacles, the sentinel elsewhere.
pub open spec fn initial_distances(obstacles: Seq<bool>) -> Seq<u64> {
    Seq::new(obstacles.len(), |i: int| initial_distance(obstacles[i]))
}

impl View for DistanceField {
    type V = Seq<u64>;

    /// The distances in row-major order.
    closed spec fn view(&self) -> Seq<u64> {
        self.distances@
    }
}

impl DistanceField {
    /// Sentinel for a cell that no obstacle has reached.
    pub const MAX_DISTANCE: u64 = u64::MAX;

    /// Number of columns.
    pub closed spec fn spec_width(&self) -> nat {
        self.width as nat
    }

    /// Number of rows.
    pub closed spec fn spec_height(&self) -> nat {
        self.height as nat
    }

    /// A non-empty grid holding exactly `width * height` distances.
    pub open spec fn wf(&self) -> bool {
        &&& self.spec_width() > 0
        &&& self.spec_height() > 0
        &&& self@.len() == self.spec_width() * self.spec_height()
        &&& self.spec_width() * self.spec_height() <= usize::MAX
    }

    /// A zero-filled field with the dimensions of `obstacles`.
    pub fn from_obstacles(obstacles: &Obstacles) -> (r: Self)
        ensures
            r.wf() == obstacles.wf(),
            r.spec_width() == obstacles.spec_width(),
            r.spec_height() == obstacles.spec_height(),
            r@ == Seq::new(obstacles@.len(), |i: int| 0u64),
    {
        let n: usize = obstacles.as_slice().len();
        let r = Self { distances: vec![0u64; n], width: obstacles.width(), height: obstacles.height() };
        assert(r@ =~= Seq::new(obstacles@.len(), |i: int| 0u64));
        r
    }

    /// Number of columns.
    pub fn width(&self) -> (r: usize)
        ensures
            r == self.spec_width(),
    {
        self.width
    }

    /// Number of rows.
    pub fn height(&self) -> (r: usize)
        ensures
            r == self.spec_height(),
    {
        self.height
    }

    /// Iterates over the distances in row-major order.
    pub fn iter(&self) -> (r: std::slice::Iter<'_, u64>)
        ensures
            vstd::std_specs::slice::into_iter_elts(r) == self@,
    {
        self.distances.as_slice().iter()
    }

    /// The distances in row-major order, as a slice.
    pub fn as_slice(&self) -> (r: &[u64])
        ensures
            r@ == self@,
    {
        self.distances.as_slice()
    }

    /// Mutable access to the distances in row-major order.
    pub fn iter_mut(&mut self) -> (r: &mut [u64])
        ensures
            r@ == old(self)@,
            final(self)@ == final(r)@,
            final(self).spec_width() == old(self).spec_width(),
            final(self).spec_height() == old(self).spec_height(),
    {
        self.distances.as_mut_slice()
    }

    /// Resets every distance: zero on an obstacle, the sentinel elsewhere.
    pub fn initialize(&mut self, obstacles: &Obstacles)
        requires
            old(self).wf(),
            obstacles.wf(),
            old(self).spec_width() == obstacles.spec_width(),
            old(self).spec_height() == obstacles.spec_height(),
        ensures
            final(self).wf(),
            final(self).spec_width() == old(self).spec_width(),
            final(self).spec_height() == old(self).spec_height(),
            final(self)@ == initial_distances(obstacles@),
    {
        let cells = obstacles.as_slice();
        let n: usize = self.distances.len();
        let mut i: usize = 0;
        while i < n
            invariant
                n == self.distances@.len(),
                n == cells@.len(),
                i <= n,
                self.width == old(self).width,
                self.height == old(self).height,
                forall|k: int| 0 <= k < i ==> self.distances@[k] == initial_distance(#[trigger] cells@[k]),
            decreases n - i,
        {
            let d: u64 = if cells[i] {
                0
            } else {
                Self::MAX_DISTANCE
            };
            self.distances.set(i, d);
            i += 1;
        }
        assert(self@ =~= initial_distances(obstacles@));
    }
}

impl<'a> From<&'a Obstacles> for DistanceField {
    /// Same as `from_obstacles`, whose contract states the result.
    fn from(value: &'a Obstacles) -> Self {
        Self::from_obstacles(value)
    }
}

impl<'a> vstd::std_specs::convert::FromSpecImpl<&'a Obstacles> for DistanceField {
    open spec fn obeys_from_spec() -> bool {
        false
    }

    open spec fn from_spec(v: &'a Obstacles) -> DistanceField {
        vstd::pervasive::arbitrary()
    }
}

impl Grid for DistanceField {
    type Item = u64;

    open spec fn grid_width(&self) -> nat {
        self.spec_width()
    }

    open spec fn grid_height(&self) -> nat {
        self.spec_height()
    }

    open spec fn cells(&self) -> Seq<u64> {
        self@
    }

    open spec fn grid_wf(&self) -> bool {
        self.wf()
    }

    fn get_at(&self, x: usize, y: usize) -> (r: &u64) {
        proof {
            crate::lemma_cell_index_bounds(self.width as nat, self.height as nat, x as int, y as int);
        }
        &self.distances[y * self.width + x]
    }

    fn set_at(&mut self, x: usize, y: usize, value: u64) {
        proof {
            crate::lemma_cell_index_bounds(self.width as nat, self.height as nat, x as int, y as int);
        }
        let i: usize = y * self.width + x;
        self.distances.set(i, value);
    }
}

} // verus!
