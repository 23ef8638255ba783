use crate::Grid;
use vstd::prelude::*;

verus! {

/// Binary map of obstacles: `true` marks a blocked cell.
pub struct Obstacles {
    obstacles: Vec<bool>,
    width: usize,
    height: usize,
}

impl View for Obstacles {
    type V = Seq<bool>;

    /// The cells in row-major order.
    closed spec fn view(&self) -> Seq<bool> {
        self.obstacles@
    }
}

impl Obstacles {
    /// Number of columns.
    pub closed spec fn spec_width(&self) -> nat {
        self.width as nat
    }

    /// Number of rows.
    pub closed spec fn spec_height(&self) -> nat {
        self.height as nat
    }

    /// A non-empty grid holding exactly `width * height` cells.
    pub open spec fn wf(&self) -> bool {
        &&& self.spec_width() > 0
        &&& self.spec_height() > 0
        &&& self@.len() == self.spec_width() * self.spec_height()
        &&& self.spec_width() * self.spec_height() <= usize::MAX
    }

    /// A map of `width * height` cells, none of them blocked.
    pub fn new(width: usize, height: usize) -> (r: Self)
        requires
            width > 0,
            height > 0,
            width * height <= usize::MAX,
        ensures
            r.wf(),
            r.spec_width() == width,
            r.spec_height() == height,
            r@ == Seq::new((width * height) as nat, |i: int| false),
    {
        let n: usize = width * height;
        let obstacles = vec![false; n];
        let r = Self { obstacles, width, height };
        assert(r@ =~= Seq::new((width * height) as nat, |i: int| false));
        r
    }

    /// Number of columns.
    pub fn width(&self) -> (r: usize)
        ensures
            r == self.spec_width(),
    {
        self.width
    }

    /// Number of rows.
    pub fn height(&self) -> (r: usize)
        ensures
            r == self.spec_height(),
    {
        self.height
    }

    /// Iterates over the cells in row-major order.
    pub fn iter(&self) -> (r: std::slice::Iter<'_, bool>)
        ensures
            vstd::std_specs::slice::into_iter_elts(r) == self@,
    {
        self.obstacles.as_slice().iter()
    }

    /// The cells in row-major order, as a slice.
    pub fn as_slice(&self) -> (r: &[bool])
        ensures
            r@ == self@,
    {
        self.obstacles.as_slice()
    }

    /// Mutable access to the cells in row-major order.
    pub fn iter_mut(&mut self) -> (r: &mut [bool])
        ensures
            r@ == old(self)@,
            final(self)@ == final(r)@,
            final(self).spec_width() == old(self).spec_width(),
            final(self).spec_height() == old(self).spec_height(),
    {
        self.obstacles.as_mut_slice()
    }
}

impl Grid for Obstacles {
    type Item = bool;

    open spec fn grid_width(&self) -> nat {
        self.spec_width()
    }

    open spec fn grid_height(&self) -> nat {
        self.spec_height()
    }

    open spec fn cells(&self) -> Seq<bool> {
        self@
    }

    open spec fn grid_wf(&self) -> bool {
        self.wf()
    }

    fn get_at(&self, x: usize, y: usize) -> (r: &bool) {
        proof {
            crate::lemma_cell_index_bounds(self.width as nat, self.height as nat, x as int, y as int);
        }
        &self.obstacles[y * self.width + x]
    }

    fn set_at(&mut self, x: usize, y: usize, value: bool) {
        proof {
            crate::lemma_cell_index_bounds(self.width as nat, self.height as nat, x as int, y as int);
        }
        let i: usize = y * self.width + x;
        self.obstacles.set(i, value);
    }
}

} // verus!
