//! Pointer-to-cell addressing: which cell a pointer position lands on when
//! the grid is drawn centred inside a rectangular screen region.
//!
//! One cell is drawn `cell_size` pixels square: the region's smaller side,
//! scaled to 98% and rounded, divided by the grid's larger side, and never
//! more than 20, so unbalanced grids keep square cells and fit the region.

use vstd::arithmetic::div_mod::lemma_fundamental_div_mod;
use vstd::arithmetic::div_mod::lemma_mod_bound;
use vstd::arithmetic::div_mod::lemma_multiply_divide_lt;
use vstd::prelude::*;

use crate::grid::Grid;
use crate::transform::lemma_xy_index;

verus! {

/// Largest pixel size a cell is drawn at.
pub const MAX_CELL_PIXELS: u64 = 20;

/// The drawn size of one cell, in pixels.
pub open spec fn cell_size_spec(rw: int, rh: int, gw: int, gh: int) -> int {
    let smaller = if rw <= rh {
        rw
    } else {
        rh
    };
    let scaled = (smaller * 98 + 50) / 100;
    let larger = if gw >= gh {
        gw
    } else {
        gh
    };
    let fit = scaled / larger;
    if fit <= MAX_CELL_PIXELS {
        fit
    } else {
        MAX_CELL_PIXELS as int
    }
}

/// The drawn grid's width in pixels.
pub open spec fn area_w_spec(rw: int, rh: int, gw: int, gh: int) -> int {
    cell_size_spec(rw, rh, gw, gh) * gw
}

/// The drawn grid's height in pixels.
pub open spec fn area_h_spec(rw: int, rh: int, gw: int, gh: int) -> int {
    cell_size_spec(rw, rh, gw, gh) * gh
}

/// The drawn grid's left edge: the grid sits centred in the region.
pub open spec fn area_left_spec(rx: int, rw: int, rh: int, gw: int, gh: int) -> int {
    rx + (rw - area_w_spec(rw, rh, gw, gh)) / 2
}

/// The drawn grid's top edge: the grid sits centred in the region.
pub open spec fn area_top_spec(ry: int, rw: int, rh: int, gw: int, gh: int) -> int {
    ry + (rh - area_h_spec(rw, rh, gw, gh)) / 2
}

/// Whether the pointer lies on the drawn grid.
pub open spec fn pointer_in_area(
    rx: int,
    ry: int,
    rw: int,
    rh: int,
    gw: int,
    gh: int,
    px: int,
    py: int,
) -> bool {
    let left = area_left_spec(rx, rw, rh, gw, gh);
    let top = area_top_spec(ry, rw, rh, gw, gh);
    &&& left <= px < left + area_w_spec(rw, rh, gw, gh)
    &&& top <= py < top + area_h_spec(rw, rh, gw, gh)
}

/// The row-major index of the cell under a pointer that lies on the drawn
/// grid.
pub open spec fn cell_index_spec(
    rx: int,
    ry: int,
    rw: int,
    rh: int,
    gw: int,
    gh: int,
    px: int,
    py: int,
) -> int {
    let size = cell_size_spec(rw, rh, gw, gh);
    let cx = (px - area_left_spec(rx, rw, rh, gw, gh)) / size;
    let cy = (py - area_top_spec(ry, rw, rh, gw, gh)) / size;
    cx + cy * gw
}

/// The drawn grid never overflows the region: each drawn side fits within
/// the region's matching side.
proof fn lemma_area_fits(rw: int, rh: int, gw: int, gh: int)
    requires
        0 <= rw,
        0 <= rh,
        0 < gw,
        0 < gh,
    ensures
        0 <= cell_size_spec(rw, rh, gw, gh),
        area_w_spec(rw, rh, gw, gh) <= rw,
        area_h_spec(rw, rh, gw, gh) <= rh,
{
    let smaller = if rw <= rh {
        rw
    } else {
        rh
    };
    let scaled = (smaller * 98 + 50) / 100;
    let larger = if gw >= gh {
        gw
    } else {
        gh
    };
    let fit = scaled / larger;
    let size = cell_size_spec(rw, rh, gw, gh);
    lemma_multiply_divide_lt(smaller * 98 + 50, 100, smaller + 1);
    assert(scaled <= smaller);
    lemma_fundamental_div_mod(scaled, larger);
    lemma_mod_bound(scaled, larger);
    assert(fit * larger <= scaled) by (nonlinear_arith)
        requires scaled == larger * fit + scaled % larger, 0 <= scaled % larger;
    vstd::arithmetic::div_mod::lemma_div_pos_is_pos(scaled, larger);
    assert(size * larger <= fit * larger) by (nonlinear_arith)
        requires 0 <= size <= fit, 0 < larger;
    assert(size * gw <= size * larger && size * gh <= size * larger) by (nonlinear_arith)
        requires 0 <= size, 0 < gw <= larger, 0 < gh <= larger;
}

/// Finds the cell under a pointer: `Some` exactly when the pointer lies on
/// the grid as drawn centred in the given region, and then the row-major
/// index of that cell.
pub fn cell_at(g: &Grid, rx: i32, ry: i32, rw: i32, rh: i32, px: i32, py: i32) -> (r: Option<
    usize,
>)
    requires
        g.wf(),
        0 <= rw,
        0 <= rh,
    ensures
        r is Some <==> pointer_in_area(
            rx as int,
            ry as int,
            rw as int,
            rh as int,
            g@.width as int,
            g@.height as int,
            px as int,
            py as int,
        ),
        r is Some ==> {
            &&& r->0 == cell_index_spec(
                rx as int,
                ry as int,
                rw as int,
                rh as int,
                g@.width as int,
                g@.height as int,
                px as int,
                py as int,
            )
            &&& r->0 < g@.cells.len()
        },
{
    let gw = g.width();
    let gh = g.height();
    proof {
        lemma_area_fits(rw as int, rh as int, gw as int, gh as int);
    }
    let smaller: u64 = if rw <= rh {
        rw as u64
    } else {
        rh as u64
    };
    let scaled: u64 = (smaller * 98 + 50) / 100;
    let larger: u64 = if gw >= gh {
        gw as u64
    } else {
        gh as u64
    };
    let fit: u64 = scaled / larger;
    let size: u64 = if fit <= MAX_CELL_PIXELS {
        fit
    } else {
        MAX_CELL_PIXELS
    };
    let aw: u64 = size * (gw as u64);
    let ah: u64 = size * (gh as u64);
    let left: i64 = (rx as i64) + (((rw as u64) - aw) / 2) as i64;
    let top: i64 = (ry as i64) + (((rh as u64) - ah) / 2) as i64;
    let px64: i64 = px as i64;
    let py64: i64 = py as i64;
    proof {
        assert(aw <= 480 && ah <= 480) by (nonlinear_arith)
            requires
                size <= 20,
                gw as u64 <= 24,
                gh as u64 <= 24,
                aw == size * (gw as u64),
                ah == size * (gh as u64),
        ;
    }
    if px64 >= left && px64 < left + (aw as i64) && py64 >= top && py64 < top + (ah as i64) {
        proof {
            assert(size > 0) by (nonlinear_arith)
                requires size as int * (gw as int) > 0, 0 <= size as int;
        }
        let size_us: usize = size as usize;
        let dx: usize = (px64 - left) as usize;
        let dy: usize = (py64 - top) as usize;
        let cx: usize = dx / size_us;
        let cy: usize = dy / size_us;
        proof {
            assert(dx as int == px64 - left);
            assert((dx as int) < (size as int) * (gw as int));
            assert((dy as int) < (size as int) * (gh as int));
            assert(cx as int == dx as int / (size as int));
            lemma_multiply_divide_lt(dx as int, size as int, gw as int);
            lemma_multiply_divide_lt(dy as int, size as int, gh as int);
            assert(0 <= cx < gw);
            assert(0 <= cy < gh);
            lemma_xy_index(gw as int, gh as int, cx as int, cy as int);
            assert((gw as int) * (gh as int) <= 576) by (nonlinear_arith)
                requires 0 <= gw as int <= 24, 0 <= gh as int <= 24;
            assert(cx as int + (cy as int) * (gw as int) < g@.cells.len());
        }
        Some(cx + cy * gw)
    } else {
        None
    }
}

/// One pointer event on the grid: the cell under the pointer is toggled
/// unless the pointer is off the drawn grid or still on the cell it last
/// changed, and the changed cell, if any, is handed back so the caller can
/// keep the drag from re-toggling it.
pub fn pointer_toggle(
    g: &mut Grid,
    rx: i32,
    ry: i32,
    rw: i32,
    rh: i32,
    px: i32,
    py: i32,
    last_changed: Option<usize>,
) -> (r: Option<usize>)
    requires
        old(g).wf(),
        0 <= rw,
        0 <= rh,
    ensures
        final(g).wf(),
        final(g)@.width == old(g)@.width,
        final(g)@.height == old(g)@.height,
        ({
            let inside = pointer_in_area(
                rx as int,
                ry as int,
                rw as int,
                rh as int,
                old(g)@.width as int,
                old(g)@.height as int,
                px as int,
                py as int,
            );
            let idx = cell_index_spec(
                rx as int,
                ry as int,
                rw as int,
                rh as int,
                old(g)@.width as int,
                old(g)@.height as int,
                px as int,
                py as int,
            );
            if inside && (last_changed is None || last_changed->0 != idx) {
                &&& r == Some(idx as usize)
                &&& final(g)@.cells == old(g)@.cells.update(idx, !old(g)@.cells[idx])
            } else {
                &&& r is None
                &&& final(g)@.cells == old(g)@.cells
            }
        }),
{
    let hit = cell_at(g, rx, ry, rw, rh, px, py);
    match hit {
        Some(cell) => {
            let skip_cell = match last_changed {
                Some(last) => last == cell,
                None => false,
            };
            if skip_cell {
                None
            } else {
                let toggled = g.toggle(cell);
                proof {
                    assert(toggled is Ok);
                }
                Some(cell)
            }
        },
        None => None,
    }
}

} // verus!
