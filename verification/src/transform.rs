//! Whole-grid transformations: mirror flips and cyclic shifts.
//!
//! Every transform keeps the grid's size and only rearranges cell values.
//! The row shifts move a full row from one edge to the other; the column
//! shifts move a single cell within each row by a fixed offset of three,
//! which is kept exactly as the editor behaves.

use vstd::arithmetic::div_mod::lemma_fundamental_div_mod;
use vstd::arithmetic::div_mod::lemma_fundamental_div_mod_converse;
use vstd::arithmetic::div_mod::lemma_div_pos_is_pos;
use vstd::arithmetic::div_mod::lemma_mod_bound;
use vstd::arithmetic::div_mod::lemma_multiply_divide_lt;
use vstd::prelude::*;

use crate::grid::Grid;

verus! {

/// How far `shift_left` / `shift_right` move a cell within each row.
pub const SHIFT_OFFSET: usize = 3;

/// Every row mirrored left-to-right.
pub open spec fn flip_h_seq(cells: Seq<bool>, w: int) -> Seq<bool> {
    Seq::new(cells.len(), |i: int| cells[(i / w) * w + (w - 1 - i % w)])
}

/// The rows mirrored top-to-bottom, each row kept intact.
pub open spec fn flip_v_seq(cells: Seq<bool>, w: int, h: int) -> Seq<bool> {
    Seq::new(cells.len(), |i: int| cells[(h - 1 - i / w) * w + i % w])
}

/// The top row moved, in order, to the bottom.
pub open spec fn shift_up_seq(cells: Seq<bool>, w: int) -> Seq<bool> {
    cells.skip(w) + cells.take(w)
}

/// The bottom row moved, in order, to the top.
pub open spec fn shift_down_seq(cells: Seq<bool>, w: int) -> Seq<bool> {
    cells.skip(cells.len() - w) + cells.take(cells.len() - w)
}

/// Within each row, the first cell pulled out and put back three places
/// later: `[c0, c1, c2, c3, rest...]` becomes `[c1, c2, c3, c0, rest...]`.
pub open spec fn shift_left_seq(cells: Seq<bool>, w: int) -> Seq<bool> {
    Seq::new(cells.len(), |i: int| {
        let x = i % w;
        cells[(i / w) * w + (if x < SHIFT_OFFSET { x + 1 } else if x == SHIFT_OFFSET { 0 } else { x })]
    })
}

/// Within each row, the cell three places in pulled out and put back at the
/// row start: `[c0, c1, c2, c3, rest...]` becomes `[c3, c0, c1, c2, rest...]`.
pub open spec fn shift_right_seq(cells: Seq<bool>, w: int) -> Seq<bool> {
    Seq::new(cells.len(), |i: int| {
        let x = i % w;
        cells[(i / w) * w + (if x == 0 { SHIFT_OFFSET as int } else if x <= SHIFT_OFFSET { x - 1 } else { x })]
    })
}

/// Splits a row-major index into its row and column: for `i` inside a
/// `w` by `h` grid, `i / w` is the row and `i % w` the column.
pub(crate) proof fn lemma_grid_index(w: int, h: int, i: int)
    requires
        0 < w,
        0 < h,
        0 <= i < w * h,
    ensures
        0 <= i % w < w,
        0 <= i / w < h,
        i == (i / w) * w + i % w,
{
    lemma_fundamental_div_mod(i, w);
    assert((i / w) * w == w * (i / w)) by (nonlinear_arith);
    lemma_mod_bound(i, w);
    lemma_div_pos_is_pos(i, w);
    lemma_multiply_divide_lt(i, w, h);
}

/// Joins a row and column back into a row-major index: the cell at column
/// `x` of row `y` sits at `x + y * w`, and that index decomposes back into
/// the same `x` and `y`.
pub(crate) proof fn lemma_xy_index(w: int, h: int, x: int, y: int)
    requires
        0 < w,
        0 < h,
        0 <= x < w,
        0 <= y < h,
    ensures
        0 <= x + y * w < w * h,
        (x + y * w) / w == y,
        (x + y * w) % w == x,
{
    lemma_fundamental_div_mod_converse(x + y * w, w, y, x);
    assert((y + 1) * w <= h * w) by (nonlinear_arith)
        requires 0 < w, y + 1 <= h;
    assert(y * w + w == (y + 1) * w) by (nonlinear_arith);
    assert(w * h == h * w) by (nonlinear_arith);
}

impl Grid {
    /// Mirrors every row left-to-right; size unchanged.
    pub fn flip_horizontal(&mut self)
        requires
            old(self).wf(),
        ensures
            final(self).wf(),
            final(self)@.width == old(self)@.width,
            final(self)@.height == old(self)@.height,
            final(self)@.cells == flip_h_seq(old(self)@.cells, old(self)@.width as int),
    {
        let w = self.width();
        let h = self.height();
        let n = self.cell_count();
        let ghost target = flip_h_seq(self@.cells, w as int);
        let mut out: Vec<bool> = Vec::new();
        for y in 0..h
            invariant
                self.wf(),
                w == self@.width,
                h == self@.height,
                n == self@.cells.len(),
                target == flip_h_seq(self@.cells, w as int),
                out@.len() == y * w,
                forall|j: int| 0 <= j < out@.len() ==> out@[j] == target[j],
        {
            for x in 0..w
                invariant
                    self.wf(),
                    w == self@.width,
                    h == self@.height,
                    n == self@.cells.len(),
                    target == flip_h_seq(self@.cells, w as int),
                    y < h,
                    out@.len() == y * w + x,
                    forall|j: int| 0 <= j < out@.len() ==> out@[j] == target[j],
            {
                proof {
                    lemma_xy_index(w as int, h as int, x as int, y as int);
                    lemma_xy_index(w as int, h as int, w - 1 - x as int, y as int);
                }
                out.push(self.get(y * w + (w - 1 - x)));
            }
            proof {
                assert((y as int + 1) * (w as int) == y as int * (w as int) + w as int)
                    by (nonlinear_arith);
            }
        }
        proof {
            assert(h as int * w as int == w as int * h as int) by (nonlinear_arith);
        }
        proof {
            assert(out@ =~= target);
        }
        self.replace_cells(out);
    }

    /// Mirrors the rows top-to-bottom, each row kept intact; size unchanged.
    pub fn flip_vertical(&mut self)
        requires
            old(self).wf(),
        ensures
            final(self).wf(),
            final(self)@.width == old(self)@.width,
            final(self)@.height == old(self)@.height,
            final(self)@.cells == flip_v_seq(
                old(self)@.cells,
                old(self)@.width as int,
                old(self)@.height as int,
            ),
    {
        let w = self.width();
        let h = self.height();
        let n = self.cell_count();
        let ghost target = flip_v_seq(self@.cells, w as int, h as int);
        let mut out: Vec<bool> = Vec::new();
        for y in 0..h
            invariant
                self.wf(),
                w == self@.width,
                h == self@.height,
                n == self@.cells.len(),
                target == flip_v_seq(self@.cells, w as int, h as int),
                out@.len() == y * w,
                forall|j: int| 0 <= j < out@.len() ==> out@[j] == target[j],
        {
            for x in 0..w
                invariant
                    self.wf(),
                    w == self@.width,
                    h == self@.height,
                    n == self@.cells.len(),
                    target == flip_v_seq(self@.cells, w as int, h as int),
                    y < h,
                    out@.len() == y * w + x,
                    forall|j: int| 0 <= j < out@.len() ==> out@[j] == target[j],
            {
                proof {
                    lemma_xy_index(w as int, h as int, x as int, y as int);
                    lemma_xy_index(w as int, h as int, x as int, h - 1 - y as int);
                }
                out.push(self.get((h - 1 - y) * w + x));
            }
            proof {
                assert((y as int + 1) * (w as int) == y as int * (w as int) + w as int)
                    by (nonlinear_arith);
            }
        }
        proof {
            assert(h as int * w as int == w as int * h as int) by (nonlinear_arith);
        }
        proof {
            assert(out@ =~= target);
        }
        self.replace_cells(out);
    }

    /// Moves the top row, in order, to the bottom; size unchanged.
    pub fn shift_up(&mut self)
        requires
            old(self).wf(),
        ensures
            final(self).wf(),
            final(self)@.width == old(self)@.width,
            final(self)@.height == old(self)@.height,
            final(self)@.cells == shift_up_seq(old(self)@.cells, old(self)@.width as int),
    {
        let w = self.width();
        let n = self.cell_count();
        proof {
            assert(w * 1 <= w * self@.height) by (nonlinear_arith)
                requires 0 < w, 1 <= self@.height;
        }
        let ghost target = shift_up_seq(self@.cells, w as int);
        let mut out: Vec<bool> = Vec::new();
        for i in 0..n
            invariant
                self.wf(),
                w == self@.width,
                n == self@.cells.len(),
                w <= n,
                target == shift_up_seq(self@.cells, w as int),
                out@.len() == i,
                forall|j: int| 0 <= j < out@.len() ==> out@[j] == target[j],
        {
            if i < n - w {
                out.push(self.get(i + w));
            } else {
                out.push(self.get(i - (n - w)));
            }
        }
        proof {
            assert(out@ =~= target);
        }
        self.replace_cells(out);
    }

    /// Moves the bottom row, in order, to the top; size unchanged.
    pub fn shift_down(&mut self)
        requires
            old(self).wf(),
        ensures
            final(self).wf(),
            final(self)@.width == old(self)@.width,
            final(self)@.height == old(self)@.height,
            final(self)@.cells == shift_down_seq(old(self)@.cells, old(self)@.width as int),
    {
        let w = self.width();
        let n = self.cell_count();
        proof {
            assert(w * 1 <= w * self@.height) by (nonlinear_arith)
                requires 0 < w, 1 <= self@.height;
        }
        let ghost target = shift_down_seq(self@.cells, w as int);
        let mut out: Vec<bool> = Vec::new();
        for i in 0..n
            invariant
                self.wf(),
                w == self@.width,
                n == self@.cells.len(),
                w <= n,
                target == shift_down_seq(self@.cells, w as int),
                out@.len() == i,
                forall|j: int| 0 <= j < out@.len() ==> out@[j] == target[j],
        {
            if i < w {
                out.push(self.get(n - w + i));
            } else {
                out.push(self.get(i - w));
            }
        }
        proof {
            assert(out@ =~= target);
        }
        self.replace_cells(out);
    }

    /// Within each row, pulls the first cell out and puts it back three
    /// places later; size unchanged.
    pub fn shift_left(&mut self)
        requires
            old(self).wf(),
        ensures
            final(self).wf(),
            final(self)@.width == old(self)@.width,
            final(self)@.height == old(self)@.height,
            final(self)@.cells == shift_left_seq(old(self)@.cells, old(self)@.width as int),
    {
        let w = self.width();
        let h = self.height();
        let n = self.cell_count();
        let ghost target = shift_left_seq(self@.cells, w as int);
        let mut out: Vec<bool> = Vec::new();
        for y in 0..h
            invariant
                self.wf(),
                w == self@.width,
                h == self@.height,
                n == self@.cells.len(),
                target == shift_left_seq(self@.cells, w as int),
                out@.len() == y * w,
                forall|j: int| 0 <= j < out@.len() ==> out@[j] == target[j],
        {
            for x in 0..w
                invariant
                    self.wf(),
                    w == self@.width,
                    h == self@.height,
                    n == self@.cells.len(),
                    target == shift_left_seq(self@.cells, w as int),
                    y < h,
                    out@.len() == y * w + x,
                    forall|j: int| 0 <= j < out@.len() ==> out@[j] == target[j],
            {
                let source: usize = if x < SHIFT_OFFSET {
                    x + 1
                } else if x == SHIFT_OFFSET {
                    0
                } else {
                    x
                };
                proof {
                    lemma_xy_index(w as int, h as int, x as int, y as int);
                    lemma_xy_index(w as int, h as int, source as int, y as int);
                }
                out.push(self.get(y * w + source));
            }
            proof {
                assert((y as int + 1) * (w as int) == y as int * (w as int) + w as int)
                    by (nonlinear_arith);
            }
        }
        proof {
            assert(h as int * w as int == w as int * h as int) by (nonlinear_arith);
            assert(out@ =~= target);
        }
        self.replace_cells(out);
    }

    /// Within each row, pulls the cell three places in out and puts it back
    /// at the row start; size unchanged.
    pub fn shift_right(&mut self)
        requires
            old(self).wf(),
        ensures
            final(self).wf(),
            final(self)@.width == old(self)@.width,
            final(self)@.height == old(self)@.height,
            final(self)@.cells == shift_right_seq(old(self)@.cells, old(self)@.width as int),
    {
        let w = self.width();
        let h = self.height();
        let n = self.cell_count();
        let ghost target = shift_right_seq(self@.cells, w as int);
        let mut out: Vec<bool> = Vec::new();
        for y in 0..h
            invariant
                self.wf(),
                w == self@.width,
                h == self@.height,
                n == self@.cells.len(),
                target == shift_right_seq(self@.cells, w as int),
                out@.len() == y * w,
                forall|j: int| 0 <= j < out@.len() ==> out@[j] == target[j],
        {
            for x in 0..w
                invariant
                    self.wf(),
                    w == self@.width,
                    h == self@.height,
                    n == self@.cells.len(),
                    target == shift_right_seq(self@.cells, w as int),
                    y < h,
                    out@.len() == y * w + x,
                    forall|j: int| 0 <= j < out@.len() ==> out@[j] == target[j],
            {
                let source: usize = if x == 0 {
                    SHIFT_OFFSET
                } else if x <= SHIFT_OFFSET {
                    x - 1
                } else {
                    x
                };
                proof {
                    lemma_xy_index(w as int, h as int, x as int, y as int);
                    lemma_xy_index(w as int, h as int, source as int, y as int);
                }
                out.push(self.get(y * w + source));
            }
            proof {
                assert((y as int + 1) * (w as int) == y as int * (w as int) + w as int)
                    by (nonlinear_arith);
            }
        }
        proof {
            assert(h as int * w as int == w as int * h as int) by (nonlinear_arith);
            assert(out@ =~= target);
        }
        self.replace_cells(out);
    }
}

/// Flipping every row left-to-right twice restores the original cells, on a
/// grid of any width and height.
pub proof fn lemma_flip_horizontal_involution(cells: Seq<bool>, w: int, h: int)
    requires
        0 < w,
        0 < h,
        cells.len() == w * h,
    ensures
        flip_h_seq(flip_h_seq(cells, w), w) == cells,
{
    let inner = flip_h_seq(cells, w);
    assert forall|i: int| 0 <= i < cells.len() implies flip_h_seq(inner, w)[i] == cells[i] by {
        let x = i % w;
        let y = i / w;
        lemma_grid_index(w, h, i);
        lemma_xy_index(w, h, w - 1 - x, y);
    }
    assert(flip_h_seq(inner, w) =~= cells);
}

/// Flipping the rows top-to-bottom twice restores the original cells, on a
/// grid of any width and height.
pub proof fn lemma_flip_vertical_involution(cells: Seq<bool>, w: int, h: int)
    requires
        0 < w,
        0 < h,
        cells.len() == w * h,
    ensures
        flip_v_seq(flip_v_seq(cells, w, h), w, h) == cells,
{
    let inner = flip_v_seq(cells, w, h);
    assert forall|i: int| 0 <= i < cells.len() implies flip_v_seq(inner, w, h)[i] == cells[i] by {
        let x = i % w;
        let y = i / w;
        lemma_grid_index(w, h, i);
        lemma_xy_index(w, h, x, h - 1 - y);
    }
    assert(flip_v_seq(inner, w, h) =~= cells);
}

/// Shifting the rows up and then down restores the original cells, and so
/// does shifting down and then up, on a grid of any width and height.
pub proof fn lemma_shift_up_down_inverse(cells: Seq<bool>, w: int)
    requires
        0 < w <= cells.len(),
    ensures
        shift_down_seq(shift_up_seq(cells, w), w) == cells,
        shift_up_seq(shift_down_seq(cells, w), w) == cells,
{
    assert(shift_down_seq(shift_up_seq(cells, w), w) =~= cells);
    assert(shift_up_seq(shift_down_seq(cells, w), w) =~= cells);
}

} // verus!
