//! Grid geometry: given the usable viewport of the grid area, the number of
//! items in the filtered view and the selected position, computes the column
//! count, the cell geometry, the scroll offset with a centering
//! bias, and the exact list of visible cells.

use vstd::prelude::*;
use vstd::arithmetic::div_mod::{
    lemma_fundamental_div_mod, lemma_multiply_divide_lt, lemma_div_is_ordered,
    lemma_div_pos_is_pos, lemma_div_plus_one, lemma_mod_bound,
};
use vstd::arithmetic::mul::lemma_mul_inequality;

verus! {

/// Narrowest cell, in terminal columns, at which a thumbnail stays readable.
pub const MIN_CELL_WIDTH: u16 = 30;

/// The grid never spreads items over more than this many columns.
pub const MAX_COLUMNS: usize = 8;

/// The grid always has at least one column.
pub const MIN_COLUMNS: usize = 1;

/// Cells clipped below this height are skipped: too small to draw.
pub const MIN_RENDER_HEIGHT: u16 = 3;

/// Column count policy: as many columns of at least `MIN_CELL_WIDTH` as fit,
/// clamped to `[MIN_COLUMNS, MAX_COLUMNS]`.
pub open spec fn spec_columns(grid_width: u16) -> int {
    let by_width = grid_width as int / MIN_CELL_WIDTH as int;
    if by_width < MIN_COLUMNS as int {
        MIN_COLUMNS as int
    } else if by_width > MAX_COLUMNS as int {
        MAX_COLUMNS as int
    } else {
        by_width
    }
}

pub fn compute_columns(grid_width: u16) -> (columns: usize)
    ensures
        columns == spec_columns(grid_width),
        MIN_COLUMNS <= columns <= MAX_COLUMNS,
{
    let by_width = (grid_width / MIN_CELL_WIDTH) as usize;
    if by_width < MIN_COLUMNS {
        MIN_COLUMNS
    } else if by_width > MAX_COLUMNS {
        MAX_COLUMNS
    } else {
        by_width
    }
}

/// The column count is the largest count within `[MIN_COLUMNS, MAX_COLUMNS]`
/// whose cells are still at least `MIN_CELL_WIDTH` wide, whenever the grid is
/// at least one minimum cell wide.
pub proof fn lemma_columns_maximal(grid_width: u16)
    requires
        grid_width >= MIN_CELL_WIDTH,
    ensures
        MIN_COLUMNS as int <= spec_columns(grid_width) <= MAX_COLUMNS as int,
        grid_width as int / spec_columns(grid_width) >= MIN_CELL_WIDTH as int,
        forall|c: int|
            spec_columns(grid_width) < c <= MAX_COLUMNS as int ==> #[trigger] (grid_width as int
                / c) < MIN_CELL_WIDTH as int,
{
    let w = grid_width as int;
    let m = MIN_CELL_WIDTH as int;
    let q = w / m;
    let cols = spec_columns(grid_width);
    lemma_div_pos_is_pos(w, m);
    lemma_div_is_ordered(m, w, m);
    assert(m / m == 1) by (nonlinear_arith)
        requires m > 0;
    assert(q >= 1);
    lemma_fundamental_div_mod(w, m);
    assert(w >= m * q);
    assert(m * q >= cols * m) by (nonlinear_arith)
        requires q >= cols >= 1 && m > 0;
    assert(w / cols >= (cols * m) / cols) by {
        lemma_div_is_ordered(cols * m, w, cols);
    }
    assert((cols * m) / cols == m) by (nonlinear_arith)
        requires cols >= 1;
    assert forall|c: int| cols < c <= MAX_COLUMNS as int implies #[trigger] (w / c) < m by {
        // cols < c is only possible when q < MAX_COLUMNS, so cols == q.
        assert(cols == q);
        assert(w < m * (q + 1));
        assert(m * (q + 1) <= m * c) by (nonlinear_arith)
            requires q + 1 <= c && m > 0;
        lemma_multiply_divide_lt(w, c, m);
    }
}

/// One visible cell: the filtered position it shows and its rectangle,
/// relative to the top-left corner of the grid area.
#[derive(Clone, Copy, PartialEq, Eq, Structural, Debug)]
pub struct CellRect {
    pub pos: usize,
    pub x: u16,
    pub y: u16,
    pub width: u16,
    pub height: u16,
}

/// The derived layout of one render cycle. Never stored across frames:
/// recomputed from the viewport, the item count and the selection.
pub struct GridGeometry {
    pub columns: usize,
    pub cell_width: u16,
    pub cell_height: u16,
    pub total_rows: usize,
    pub scroll_offset: usize,
    pub visible: Vec<CellRect>,
}

/// The integer quantities a layout derives, gathered for the specification.
pub struct LayoutFrame {
    pub cols: int,
    pub cw: int,
    pub ch: int,
    pub n: int,
    pub h: int,
    pub total_rows: int,
    pub vfr: int,
    pub window: int,
    pub scroll: int,
}

pub open spec fn sat_sub_int(a: int, b: int) -> int {
    if a >= b {
        a - b
    } else {
        0
    }
}

/// Scroll offset with a centering bias: pinned to the top near the start,
/// pinned to the bottom near the end, else half a window above the selection.
pub open spec fn spec_scroll(selected_row: int, total_rows: int, vfr: int) -> int {
    if selected_row < vfr / 2 {
        0
    } else if selected_row >= sat_sub_int(total_rows, vfr / 2) {
        sat_sub_int(total_rows, vfr)
    } else {
        selected_row - vfr / 2
    }
}

pub open spec fn spec_frame(vw: u16, vh: u16, n: int, sel: int) -> LayoutFrame {
    let cols = spec_columns(vw);
    let cw = vw as int / cols;
    let ch = cw / 2;
    let total_rows = if n == 0 {
        0
    } else {
        (n + cols - 1) / cols
    };
    let vfr = if ch == 0 {
        0
    } else {
        vh as int / ch
    };
    let window = if ch == 0 {
        0
    } else {
        vfr + (if vh as int % ch > 0 {
            1int
        } else {
            0int
        })
    };
    let scroll = if n == 0 || ch == 0 {
        0
    } else {
        spec_scroll(sel / cols, total_rows, vfr)
    };
    LayoutFrame { cols, cw, ch, n, h: vh as int, total_rows, vfr, window, scroll }
}

/// Height left for the row at window position `rel`: a full cell, or what
/// remains of the viewport for the trailing partial row.
pub open spec fn spec_row_height(f: LayoutFrame, rel: int) -> int {
    let avail = f.h - rel * f.ch;
    if f.ch <= avail {
        f.ch
    } else {
        avail
    }
}

pub open spec fn spec_row_shown(f: LayoutFrame, rel: int) -> bool {
    spec_row_height(f, rel) >= MIN_RENDER_HEIGHT as int
}

/// Number of items in absolute row `abs`: a full row, or the remainder of
/// the final partial row.
pub open spec fn spec_cells_in_row(f: LayoutFrame, abs: int) -> int {
    let rem = f.n - abs * f.cols;
    if rem < f.cols {
        rem
    } else {
        f.cols
    }
}

pub open spec fn spec_cell(f: LayoutFrame, rel: int, abs: int, c: int) -> CellRect {
    CellRect {
        pos: (abs * f.cols + c) as usize,
        x: (c * f.cw) as u16,
        y: (rel * f.ch) as u16,
        width: (f.cw - 1) as u16,
        height: (spec_row_height(f, rel) - 1) as u16,
    }
}

/// Cells of the row at window position `rel`, left to right; empty when the
/// row is clipped below the minimum render height.
pub open spec fn spec_row_seq(f: LayoutFrame, rel: int) -> Seq<CellRect> {
    if spec_row_shown(f, rel) {
        Seq::new(
            spec_cells_in_row(f, f.scroll + rel) as nat,
            |c: int| spec_cell(f, rel, f.scroll + rel, c),
        )
    } else {
        Seq::empty()
    }
}

pub open spec fn spec_rows_upto(f: LayoutFrame, k: int) -> Seq<CellRect>
    decreases k,
{
    if k <= 0 {
        Seq::empty()
    } else {
        spec_rows_upto(f, k - 1) + spec_row_seq(f, k - 1)
    }
}

/// How many window rows actually hold items.
pub open spec fn spec_shown_rows(f: LayoutFrame) -> int {
    if f.total_rows - f.scroll < f.window {
        f.total_rows - f.scroll
    } else {
        f.window
    }
}

/// The visible cells of one frame: row-major over the scrolled window,
/// empty for an empty view or a degenerate (zero cell height) viewport.
pub open spec fn spec_visible(vw: u16, vh: u16, n: int, sel: int) -> Seq<CellRect> {
    let f = spec_frame(vw, vh, n, sel);
    if n == 0 || f.ch == 0 {
        Seq::empty()
    } else {
        spec_rows_upto(f, spec_shown_rows(f))
    }
}

pub fn sat_sub(a: usize, b: usize) -> (r: usize)
    ensures
        r as int == sat_sub_int(a as int, b as int),
{
    if a >= b {
        a - b
    } else {
        0
    }
}

/// Every geometric fact of one frame: the column policy, the 2:1 cell
/// aspect, the ceiling row count, the centering scroll offset, and the
/// exact sequence of visible cells.
pub fn layout(viewport_width: u16, viewport_height: u16, item_count: usize, selected: usize) -> (g:
    GridGeometry)
    requires
        item_count == 0 || selected < item_count,
        item_count <= usize::MAX - MAX_COLUMNS,
    ensures
        g.columns as int == spec_columns(viewport_width),
        g.cell_width as int == viewport_width as int / g.columns as int,
        g.cell_height as int == g.cell_width as int / 2,
        g.total_rows as int == spec_frame(
            viewport_width,
            viewport_height,
            item_count as int,
            selected as int,
        ).total_rows,
        g.scroll_offset as int == spec_frame(
            viewport_width,
            viewport_height,
            item_count as int,
            selected as int,
        ).scroll,
        g.visible@ == spec_visible(
            viewport_width,
            viewport_height,
            item_count as int,
            selected as int,
        ),
        forall|i: int|
            0 <= i < g.visible@.len() ==> (#[trigger] g.visible@[i]).pos < item_count,
{
    let ghost f = spec_frame(viewport_width, viewport_height, item_count as int, selected as int);
    let columns = compute_columns(viewport_width);
    let cell_width = viewport_width / (columns as u16);
    let cell_height = cell_width / 2;
    let total_rows = if item_count == 0 {
        0
    } else {
        (item_count + columns - 1) / columns
    };
    if item_count == 0 || cell_height == 0 {
        return GridGeometry {
            columns,
            cell_width,
            cell_height,
            total_rows,
            scroll_offset: 0,
            visible: Vec::new(),
        };
    }
    let n = item_count;
    let selected_row = selected / columns;
    proof {
        // selected_row <= total_rows - 1
        lemma_div_is_ordered(selected as int, n as int - 1, columns as int);
        lemma_div_plus_one(n as int - 1, columns as int);
    }
    assert(selected_row < total_rows);
    let vfr = (viewport_height / cell_height) as usize;
    let window = vfr + (if viewport_height % cell_height > 0 {
        1
    } else {
        0
    });
    let scroll = if selected_row < vfr / 2 {
        0
    } else if selected_row >= sat_sub(total_rows, vfr / 2) {
        sat_sub(total_rows, vfr)
    } else {
        selected_row - vfr / 2
    };
    assert(scroll <= total_rows);
    let rows_to_show = if total_rows - scroll < window {
        total_rows - scroll
    } else {
        window
    };
    assert(rows_to_show == spec_shown_rows(f));
    proof {
        // vfr * cell_height <= viewport_height, so every window row starts
        // inside the viewport.
        lemma_fundamental_div_mod(viewport_height as int, cell_height as int);
    }
    let mut visible: Vec<CellRect> = Vec::new();
    let mut rel: usize = 0;
    while rel < rows_to_show
        invariant
            f == spec_frame(viewport_width, viewport_height, n as int, selected as int),
            f.cols == columns,
            f.cw == cell_width,
            f.ch == cell_height,
            f.total_rows == total_rows,
            f.vfr == vfr,
            f.window == window,
            f.scroll == scroll,
            f.n == n,
            f.h == viewport_height,
            1 <= columns <= MAX_COLUMNS,
            cell_height >= 1,
            rel <= rows_to_show,
            rows_to_show == spec_shown_rows(f),
            rows_to_show <= window,
            scroll + rows_to_show <= total_rows,
            n <= usize::MAX - MAX_COLUMNS,
            n > 0,
            vfr == viewport_height as int / cell_height as int,
            visible@ == spec_rows_upto(f, rel as int),
            forall|idx: int| 0 <= idx < visible@.len() ==> (#[trigger] visible@[idx]).pos < n,
        decreases rows_to_show - rel,
    {
        assert(rel < window);
        assert(rel <= vfr);
        proof {
            lemma_mul_inequality(rel as int, vfr as int, cell_height as int);
            lemma_fundamental_div_mod(viewport_height as int, cell_height as int);
        }
        assert(rel * cell_height <= viewport_height);
        let y = (rel as u16) * cell_height;
        let avail = viewport_height - y;
        let row_h = if cell_height <= avail {
            cell_height
        } else {
            avail
        };
        assert(row_h == spec_row_height(f, rel as int));
        let abs = scroll + rel;
        assert(abs < total_rows);
        proof {
            // total_rows * columns <= n + columns - 1, so abs * columns <= n - 1
            lemma_fundamental_div_mod((n + columns - 1) as int, columns as int);
            lemma_mod_bound((n + columns - 1) as int, columns as int);
            assert(columns as int * total_rows as int <= n as int + columns as int - 1);
            assert((abs as int) * (columns as int) < n as int) by (nonlinear_arith)
                requires
                    (abs as int) < total_rows as int,
                    (columns as int) * (total_rows as int) <= n as int + columns as int - 1,
                    columns as int >= 1;
        }
        assert(abs * columns < n);
        let base = abs * columns;
        let rem = n - base;
        let cnt = if rem < columns {
            rem
        } else {
            columns
        };
        assert(cnt == spec_cells_in_row(f, abs as int));
        if row_h >= MIN_RENDER_HEIGHT {
            proof {
                lemma_fundamental_div_mod(viewport_width as int, columns as int);
                lemma_mod_bound(viewport_width as int, columns as int);
            }
            assert(cell_width >= 2) by {
                assert(cell_height as int == cell_width as int / 2);
            }
            let mut c: usize = 0;
            while c < cnt
                invariant
                    c <= cnt,
                    cnt == spec_cells_in_row(f, abs as int),
                    cnt <= columns,
                    base == abs as int * f.cols,
                    base + cnt <= n,
                    1 <= columns <= MAX_COLUMNS,
                    f.cols == columns,
                    f.cw == cell_width,
                    f.ch == cell_height,
                    f.n == n,
                    f.h == viewport_height,
                    cell_height >= 1,
                    viewport_width as int == f.cols * f.cw + viewport_width as int % f.cols,
                    viewport_width as int % f.cols >= 0,
                    cell_width >= 2,
                    y == rel as int * cell_height,
                    row_h == spec_row_height(f, rel as int),
                    row_h >= MIN_RENDER_HEIGHT,
                    abs == f.scroll + rel,
                    visible@ == spec_rows_upto(f, rel as int) + Seq::new(
                        c as nat,
                        |cc: int| spec_cell(f, rel as int, abs as int, cc),
                    ),
                    forall|idx: int|
                        0 <= idx < visible@.len() ==> (#[trigger] visible@[idx]).pos < n,
                decreases cnt - c,
            {
                proof {
                    lemma_mul_inequality(c as int + 1, columns as int, cell_width as int);
                }
                assert(((c + 1) as int) * (cell_width as int) <= (columns as int) * (
                cell_width as int)) by (nonlinear_arith)
                    requires
                        c as int + 1 <= columns as int,
                        (cell_width as int) >= 0;
                assert((c as int) * (cell_width as int) + cell_width as int == ((c + 1) as int) * (
                cell_width as int)) by (nonlinear_arith);
                assert(columns as int * cell_width as int <= viewport_width as int);
                let x = (c as u16) * cell_width;
                visible.push(
                    CellRect { pos: base + c, x, y, width: cell_width - 1, height: row_h - 1 },
                );
                assert(visible@ =~= spec_rows_upto(f, rel as int) + Seq::new(
                    (c + 1) as nat,
                    |cc: int| spec_cell(f, rel as int, abs as int, cc),
                ));
                c += 1;
            }
            proof {
                assert(spec_row_shown(f, rel as int));
                assert(spec_row_seq(f, rel as int) =~= Seq::new(
                    cnt as nat,
                    |cc: int| spec_cell(f, rel as int, abs as int, cc),
                ));
                assert(spec_rows_upto(f, rel as int + 1) == spec_rows_upto(f, rel as int)
                    + spec_row_seq(f, rel as int));
            }
        } else {
            proof {
                assert(!spec_row_shown(f, rel as int));
                assert(spec_row_seq(f, rel as int) =~= Seq::<CellRect>::empty());
                assert(spec_rows_upto(f, rel as int + 1) =~= spec_rows_upto(f, rel as int));
            }
        }
        rel += 1;
    }
    GridGeometry { columns, cell_width, cell_height, total_rows, scroll_offset: scroll, visible }
}

/// Scroll offset of a selectable list shown in a window of `visible` lines:
/// the same centering bias as the grid, pinned at either end.
pub open spec fn spec_list_scroll(total: int, visible: int, index: int) -> int {
    if total <= visible {
        0
    } else if index < visible / 2 {
        0
    } else if index >= sat_sub_int(total, visible / 2) {
        sat_sub_int(total, visible)
    } else {
        index - visible / 2
    }
}

pub fn list_scroll_offset(total: usize, visible: usize, index: usize) -> (r: usize)
    ensures
        r as int == spec_list_scroll(total as int, visible as int, index as int),
{
    if total <= visible {
        0
    } else if index < visible / 2 {
        0
    } else if index >= sat_sub(total, visible / 2) {
        sat_sub(total, visible)
    } else {
        index - visible / 2
    }
}

} // verus!

