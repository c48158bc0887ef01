//! The dot matrix at the heart of the editor: a rectangular grid of boolean
//! cells stored row-major, with its width and height.

use vstd::prelude::*;

verus! {

/// Smallest side length a grid may have.
pub const MIN_SIDE: usize = 4;

/// Largest side length a grid may have.
pub const MAX_SIDE: usize = 24;

/// Why a grid operation refused its input.
#[derive(Debug, Clone, Copy, PartialEq, Eq, Structural)]
pub enum GridError {
    /// A cell index lay outside the cell buffer.
    OutOfRange,
}

/// The mathematical value of a [`Grid`]: its two side lengths and the
/// row-major sequence of cells.
#[verifier::ext_equal]
pub struct GridModel {
    pub width: nat,
    pub height: nat,
    pub cells: Seq<bool>,
}

impl GridModel {
    /// Both sides within bounds and exactly one cell per coordinate.
    pub open spec fn wf(self) -> bool {
        &&& MIN_SIDE <= self.width <= MAX_SIDE
        &&& MIN_SIDE <= self.height <= MAX_SIDE
        &&& self.cells.len() == self.width * self.height
    }
}

/// The editable grid of boolean cells, row-major: the cell at column `x`,
/// row `y` sits at index `x + y * width`.
pub struct Grid {
    width: usize,
    height: usize,
    cells: Vec<bool>,
}

impl View for Grid {
    type V = GridModel;

    closed spec fn view(&self) -> GridModel {
        GridModel { width: self.width as nat, height: self.height as nat, cells: self.cells@ }
    }
}

impl Grid {
    /// Both sides within bounds and exactly one cell per coordinate.
    pub open spec fn wf(self) -> bool {
        self@.wf()
    }

    /// A fresh default grid: 5 by 5, every cell off.
    pub fn new() -> (g: Grid)
        ensures
            g.wf(),
            g@.width == 5,
            g@.height == 5,
            g@.cells == Seq::new(25, |i: int| false),
    {
        let g = Grid { width: 5, height: 5, cells: vec![false; 25] };
        proof {
            assert(g@.cells =~= Seq::new(25, |i: int| false));
        }
        g
    }

    /// Builds a grid from persisted parts, accepting them only when the
    /// sides are within bounds and the buffer has exactly one cell per
    /// coordinate.
    pub fn from_parts(width: usize, height: usize, cells: Vec<bool>) -> (r: Option<Grid>)
        ensures
            r is Some <==> (MIN_SIDE <= width <= MAX_SIDE && MIN_SIDE <= height <= MAX_SIDE
                && cells@.len() == width * height),
            r is Some ==> {
                &&& r->0.wf()
                &&& r->0@.width == width
                &&& r->0@.height == height
                &&& r->0@.cells == cells@
            },
    {
        if width < MIN_SIDE || width > MAX_SIDE || height < MIN_SIDE || height > MAX_SIDE {
            return None;
        }
        assert(width * height <= 576) by (nonlinear_arith)
            requires width <= 24 && height <= 24;
        if cells.len() != width * height {
            return None;
        }
        Some(Grid { width, height, cells })
    }

    /// The grid's width in cells.
    pub fn width(&self) -> (w: usize)
        ensures
            w == self@.width,
    {
        self.width
    }

    /// The grid's height in cells.
    pub fn height(&self) -> (h: usize)
        ensures
            h == self@.height,
    {
        self.height
    }

    /// How many cells the grid holds.
    pub fn cell_count(&self) -> (n: usize)
        ensures
            n == self@.cells.len(),
    {
        self.cells.len()
    }

    /// The cell buffer, row-major.
    pub fn cells(&self) -> (c: &Vec<bool>)
        ensures
            c@ == self@.cells,
    {
        &self.cells
    }

    /// The cell at `index`.
    pub fn get(&self, index: usize) -> (b: bool)
        requires
            index < self@.cells.len(),
        ensures
            b == self@.cells[index as int],
    {
        self.cells[index]
    }

    /// Grows or shrinks the width by one, within bounds, and clears every
    /// cell: resizing never preserves content.
    pub fn resize_width(&mut self, delta: isize)
        requires
            old(self).wf(),
        ensures
            final(self).wf(),
            final(self)@.width == (if delta < 0 && old(self)@.width > MIN_SIDE {
                old(self)@.width as int - 1
            } else if delta > 0 && old(self)@.width < MAX_SIDE {
                old(self)@.width as int + 1
            } else {
                old(self)@.width as int
            }),
            final(self)@.height == old(self)@.height,
            final(self)@.cells.len() == final(self)@.width * final(self)@.height,
            forall|i: int| 0 <= i < final(self)@.cells.len() ==> !final(self)@.cells[i],
    {
        if delta < 0 && self.width > MIN_SIDE {
            self.width = self.width - 1;
        } else if delta > 0 && self.width < MAX_SIDE {
            self.width = self.width + 1;
        }
        assert(self.width * self.height <= 576) by (nonlinear_arith)
            requires self.width <= 24 && self.height <= 24;
        self.cells = vec![false; self.width * self.height];
    }

    /// Grows or shrinks the height by one, within bounds, and clears every
    /// cell: resizing never preserves content.
    pub fn resize_height(&mut self, delta: isize)
        requires
            old(self).wf(),
        ensures
            final(self).wf(),
            final(self)@.height == (if delta < 0 && old(self)@.height > MIN_SIDE {
                old(self)@.height as int - 1
            } else if delta > 0 && old(self)@.height < MAX_SIDE {
                old(self)@.height as int + 1
            } else {
                old(self)@.height as int
            }),
            final(self)@.width == old(self)@.width,
            final(self)@.cells.len() == final(self)@.width * final(self)@.height,
            forall|i: int| 0 <= i < final(self)@.cells.len() ==> !final(self)@.cells[i],
    {
        if delta < 0 && self.height > MIN_SIDE {
            self.height = self.height - 1;
        } else if delta > 0 && self.height < MAX_SIDE {
            self.height = self.height + 1;
        }
        assert(self.width * self.height <= 576) by (nonlinear_arith)
            requires self.width <= 24 && self.height <= 24;
        self.cells = vec![false; self.width * self.height];
    }

    /// Flips the cell at `index`; an index outside the buffer is refused and
    /// the grid left untouched.
    pub fn toggle(&mut self, index: usize) -> (r: Result<(), GridError>)
        ensures
            index < old(self)@.cells.len() ==> {
                &&& r is Ok
                &&& final(self)@.cells == old(self)@.cells.update(
                    index as int,
                    !old(self)@.cells[index as int],
                )
            },
            index >= old(self)@.cells.len() ==> {
                &&& r == Result::<(), GridError>::Err(GridError::OutOfRange)
                &&& final(self)@.cells == old(self)@.cells
            },
            final(self)@.width == old(self)@.width,
            final(self)@.height == old(self)@.height,
    {
        if index < self.cells.len() {
            let flipped = !self.cells[index];
            self.cells[index] = flipped;
            Ok(())
        } else {
            Err(GridError::OutOfRange)
        }
    }

    /// Turns every cell off.
    pub fn clear(&mut self)
        ensures
            final(self)@.width == old(self)@.width,
            final(self)@.height == old(self)@.height,
            final(self)@.cells.len() == old(self)@.cells.len(),
            forall|i: int| 0 <= i < final(self)@.cells.len() ==> !final(self)@.cells[i],
    {
        let n = self.cells.len();
        self.cells = vec![false; n];
    }

    /// Turns every cell on.
    pub fn fill(&mut self)
        ensures
            final(self)@.width == old(self)@.width,
            final(self)@.height == old(self)@.height,
            final(self)@.cells.len() == old(self)@.cells.len(),
            forall|i: int| 0 <= i < final(self)@.cells.len() ==> final(self)@.cells[i],
    {
        let n = self.cells.len();
        self.cells = vec![true; n];
    }

    /// Swaps in a rearranged cell buffer of the same length, for the
    /// transforms and the decoder.
    pub(crate) fn replace_cells(&mut self, cells: Vec<bool>)
        requires
            cells@.len() == old(self)@.cells.len(),
        ensures
            final(self)@.width == old(self)@.width,
            final(self)@.height == old(self)@.height,
            final(self)@.cells == cells@,
    {
        self.cells = cells;
    }

    /// A copy of the cell buffer, for snapshots.
    pub fn cells_snapshot(&self) -> (c: Vec<bool>)
        ensures
            c@ == self@.cells,
    {
        self.cells.clone()
    }
}

} // verus!
