//! A 300 by 300 grid of fuel cells, each with a power level derived from a
//! serial number, and searches for the square section with the largest
//! total power.

use vstd::prelude::*;

verus! {

/// The grid is 300 cells on each side.
pub const GRID_SIDE: usize = 300;

/// The power level of the cell at `(x, y)` for the given serial number:
/// the hundreds digit of `(y * rack + serial) * rack` minus five, where
/// `rack` is `x + 10`.
pub open spec fn spec_level(serial: int, x: int, y: int) -> int {
    (((y * (x + 10) + serial) * (x + 10)) / 100) % 10 - 5
}

/// A power grid: the levels of all cells, row-major.
pub struct PowerGrid {
    pub cells: Vec<i64>,
}

impl PowerGrid {
    /// The grid holds one level per cell, each between -5 and 4.
    pub open spec fn wf(self) -> bool {
        &&& self.cells@.len() == 90000
        &&& forall|i: int| 0 <= i < 90000 ==> -5 <= (#[trigger] self.cells@[i]) <= 4
    }

    /// The level of the cell at `(x, y)`.
    pub open spec fn cell(self, x: int, y: int) -> int {
        self.cells@[y * 300 + x] as int
    }
}

/// Computes one cell's power level.
pub fn calc_level(serial: i64, x: i64, y: i64) -> (r: i64)
    requires
        0 <= serial <= 1_000_000_000,
        0 <= x <= 300,
        0 <= y <= 300,
    ensures
        r == spec_level(serial as int, x as int, y as int),
        -5 <= r <= 4,
{
    let rack = x + 10;
    proof {
        assert(0 <= y * rack <= 300 * 310) by (nonlinear_arith)
            requires
                0 <= y <= 300,
                10 <= rack <= 310,
        ;
        assert(0 <= (y * rack + serial) * rack <= (300 * 310 + 1_000_000_000) * 310)
            by (nonlinear_arith)
            requires
                0 <= y * rack <= 300 * 310,
                0 <= serial <= 1_000_000_000,
                10 <= rack <= 310,
        ;
    }
    let level = (y * rack + serial) * rack;
    let hundreds = ((level as u64 / 100) % 10) as i64;
    proof {
        assert(level as u64 as int == level as int);
        assert(0 <= (level as int / 100) % 10 < 10) by {
            vstd::arithmetic::div_mod::lemma_mod_bound(level as int / 100, 10);
        }
    }
    hundreds - 5
}

/// Builds the full grid for a serial number.
pub fn make_grid(serial: i64) -> (g: PowerGrid)
    requires
        0 <= serial <= 1_000_000_000,
    ensures
        g.wf(),
        forall|x: int, y: int|
            0 <= x < 300 && 0 <= y < 300 ==> #[trigger] g.cell(x, y) == spec_level(
                serial as int,
                x,
                y,
            ),
{
    let mut cells: Vec<i64> = Vec::new();
    let mut y: usize = 0;
    while y < GRID_SIDE
        invariant
            y <= 300,
            0 <= serial <= 1_000_000_000,
            cells@.len() == y * 300,
            forall|i: int| 0 <= i < cells@.len() ==> -5 <= (#[trigger] cells@[i]) <= 4,
            forall|xx: int, yy: int|
                0 <= xx < 300 && 0 <= yy < y ==> (#[trigger] cells@[yy * 300 + xx]) as int
                    == spec_level(serial as int, xx, yy),
        decreases 300 - y,
    {
        let mut x: usize = 0;
        while x < GRID_SIDE
            invariant
                y < 300,
                x <= 300,
                0 <= serial <= 1_000_000_000,
                cells@.len() == y * 300 + x,
                forall|i: int| 0 <= i < cells@.len() ==> -5 <= (#[trigger] cells@[i]) <= 4,
                forall|xx: int, yy: int|
                    0 <= xx < 300 && 0 <= yy < y ==> (#[trigger] cells@[yy * 300 + xx]) as int
                        == spec_level(serial as int, xx, yy),
                forall|xx: int|
                    0 <= xx < x ==> (#[trigger] cells@[y * 300 + xx]) as int == spec_level(
                        serial as int,
                        xx,
                        y as int,
                    ),
            decreases 300 - x,
        {
            let v = calc_level(serial, x as i64, y as i64);
            cells.push(v);
            x = x + 1;
        }
        y = y + 1;
    }
    let g = PowerGrid { cells };
    proof {
        assert(g.cells@.len() == 90000);
        assert forall|x: int, yy: int|
            0 <= x < 300 && 0 <= yy < 300 implies #[trigger] g.cell(x, yy) == spec_level(
            serial as int,
            x,
            yy,
        ) by {
            assert((g.cells@[yy * 300 + x]) as int == spec_level(serial as int, x, yy));
        }
    }
    g
}

/// The sum of the levels in row `y` over columns `x0` to `x1` exclusive.
pub open spec fn row_sum(cells: Seq<i64>, y: int, x0: int, x1: int) -> int
    decreases x1 - x0,
{
    if x1 <= x0 {
        0
    } else {
        row_sum(cells, y, x0, x1 - 1) + cells[y * 300 + (x1 - 1)]
    }
}

/// The sum of the levels in the rectangle of rows `y0..y1` and columns
/// `x0..x1`.
pub open spec fn rect_sum(cells: Seq<i64>, y0: int, y1: int, x0: int, x1: int) -> int
    decreases y1 - y0,
{
    if y1 <= y0 {
        0
    } else {
        rect_sum(cells, y0, y1 - 1, x0, x1) + row_sum(cells, y1 - 1, x0, x1)
    }
}

/// A row segment's sum is bounded by five per cell.
proof fn lemma_row_sum_bound(cells: Seq<i64>, y: int, x0: int, x1: int)
    requires
        cells.len() == 90000,
        forall|i: int| 0 <= i < 90000 ==> -5 <= (#[trigger] cells[i]) <= 4,
        0 <= x0,
        x1 <= 300,
        0 <= y < 300,
    ensures
        x0 <= x1 ==> -5 * (x1 - x0) <= row_sum(cells, y, x0, x1) <= 5 * (x1 - x0),
        x1 <= x0 ==> row_sum(cells, y, x0, x1) == 0,
    decreases x1 - x0,
{
    if x0 < x1 {
        lemma_row_sum_bound(cells, y, x0, x1 - 1);
    }
}

/// A rectangle's sum is bounded by 1500 per row.
proof fn lemma_rect_sum_bound(cells: Seq<i64>, y0: int, y1: int, x0: int, x1: int)
    requires
        cells.len() == 90000,
        forall|i: int| 0 <= i < 90000 ==> -5 <= (#[trigger] cells[i]) <= 4,
        0 <= x0,
        x1 <= 300,
        0 <= y0,
        y1 <= 300,
    ensures
        y0 <= y1 ==> -1500 * (y1 - y0) <= rect_sum(cells, y0, y1, x0, x1) <= 1500 * (y1 - y0),
        y1 <= y0 ==> rect_sum(cells, y0, y1, x0, x1) == 0,
    decreases y1 - y0,
{
    if y0 < y1 {
        lemma_rect_sum_bound(cells, y0, y1 - 1, x0, x1);
        if x0 <= x1 {
            lemma_row_sum_bound(cells, y1 - 1, x0, x1);
        } else {
            lemma_row_sum_bound(cells, y1 - 1, x0, x1);
        }
    }
}

/// Splitting a row segment at `b`.
proof fn lemma_row_split(cells: Seq<i64>, y: int, a: int, b: int, c: int)
    requires
        a <= b <= c,
    ensures
        row_sum(cells, y, a, c) == row_sum(cells, y, a, b) + row_sum(cells, y, b, c),
    decreases c - b,
{
    if b < c {
        lemma_row_split(cells, y, a, b, c - 1);
    }
}

/// Splitting a rectangle's rows at `b`.
proof fn lemma_rect_split_rows(cells: Seq<i64>, a: int, b: int, c: int, x0: int, x1: int)
    requires
        a <= b <= c,
    ensures
        rect_sum(cells, a, c, x0, x1) == rect_sum(cells, a, b, x0, x1) + rect_sum(
            cells,
            b,
            c,
            x0,
            x1,
        ),
    decreases c - b,
{
    if b < c {
        lemma_rect_split_rows(cells, a, b, c - 1, x0, x1);
    }
}

/// Splitting a rectangle's columns at `b`.
proof fn lemma_rect_split_cols(cells: Seq<i64>, y0: int, y1: int, a: int, b: int, c: int)
    requires
        a <= b <= c,
    ensures
        rect_sum(cells, y0, y1, a, c) == rect_sum(cells, y0, y1, a, b) + rect_sum(
            cells,
            y0,
            y1,
            b,
            c,
        ),
    decreases y1 - y0,
{
    if y0 < y1 {
        lemma_rect_split_cols(cells, y0, y1 - 1, a, b, c);
        lemma_row_split(cells, y1 - 1, a, b, c);
    }
}

/// The sum of the column segment at `x`, rows `y` to `y + size`.
pub fn calc_col_power(grid: &PowerGrid, x: usize, y: usize, size: usize) -> (r: i64)
    requires
        grid.wf(),
        x < 300,
        y + size <= 300,
    ensures
        r == rect_sum(grid.cells@, y as int, y as int + size as int, x as int, x as int + 1),
{
    let mut power: i64 = 0;
    let mut y1: usize = y;
    proof {
        lemma_rect_sum_bound(grid.cells@, y as int, y as int, x as int, x as int + 1);
    }
    while y1 < y + size
        invariant
            grid.wf(),
            x < 300,
            y <= y1 <= y + size,
            y + size <= 300,
            power == rect_sum(grid.cells@, y as int, y1 as int, x as int, x as int + 1),
            -5 * (y1 as int - y as int) <= power <= 5 * (y1 as int - y as int),
        decreases y + size - y1,
    {
        proof {
            assert(row_sum(grid.cells@, y1 as int, x as int, x as int + 1) == row_sum(
                grid.cells@,
                y1 as int,
                x as int,
                x as int,
            ) + grid.cells@[(y1 as int) * 300 + (x as int)]);
            assert((y1 as int) * 300 + (x as int) < 90000) by (nonlinear_arith)
                requires
                    0 <= (y1 as int) < 300,
                    0 <= (x as int) < 300,
            ;
        }
        power = power + grid.cells[y1 * 300 + x];
        y1 = y1 + 1;
    }
    power
}

/// The sum of the row segment at `y`, columns `x` to `x + size`.
pub fn calc_row_power(grid: &PowerGrid, x: usize, y: usize, size: usize) -> (r: i64)
    requires
        grid.wf(),
        y < 300,
        x + size <= 300,
    ensures
        r == row_sum(grid.cells@, y as int, x as int, x as int + size as int),
{
    let mut power: i64 = 0;
    let mut x1: usize = x;
    while x1 < x + size
        invariant
            grid.wf(),
            y < 300,
            x <= x1 <= x + size,
            x + size <= 300,
            power == row_sum(grid.cells@, y as int, x as int, x1 as int),
            -5 * (x1 as int - x as int) <= power <= 5 * (x1 as int - x as int),
        decreases x + size - x1,
    {
        proof {
            assert((y as int) * 300 + (x1 as int) < 90000) by (nonlinear_arith)
                requires
                    0 <= (y as int) < 300,
                    0 <= (x1 as int) < 300,
            ;
        }
        power = power + grid.cells[y * 300 + x1];
        x1 = x1 + 1;
    }
    power
}

/// The total power of the size-by-size section with corner `(x, y)`.
pub open spec fn section_sum(g: PowerGrid, x: int, y: int, size: int) -> int {
    rect_sum(g.cells@, y, y + size, x, x + size)
}

/// A rectangle with no columns sums to zero.
proof fn lemma_rect_zero_width(cells: Seq<i64>, y0: int, y1: int, x0: int)
    ensures
        rect_sum(cells, y0, y1, x0, x0) == 0,
    decreases y1 - y0,
{
    if y0 < y1 {
        lemma_rect_zero_width(cells, y0, y1 - 1, x0);
    }
}

/// Scan position `(x1, y1)` comes before `(x2, y2)` in a row-major sweep.
pub open spec fn scanned_before(x1: int, y1: int, x2: int, y2: int) -> bool {
    y1 < y2 || (y1 == y2 && x1 < x2)
}

/// Finds the size-by-size section with the largest total power, searching
/// corners `(x, y)` with both coordinates below `300 - size` in row-major
/// order and keeping the first corner that attains the maximum.  With no
/// corner to search the result is `(-1, -1, i64::MIN)`.
pub fn find_max(grid: &PowerGrid, size: usize) -> (r: (i64, i64, i64))
    requires
        grid.wf(),
        size <= 300,
    ensures
        size == 300 ==> r == (-1i64, -1i64, i64::MIN),
        size < 300 ==> {
            &&& 0 <= r.0 < 300 - size as int
            &&& 0 <= r.1 < 300 - size as int
            &&& -450000 <= r.2 <= 450000
            &&& r.2 == section_sum(*grid, r.0 as int, r.1 as int, size as int)
            &&& forall|xx: int, yy: int|
                0 <= xx < 300 - size as int && 0 <= yy < 300 - size as int
                    ==> #[trigger] section_sum(*grid, xx, yy, size as int) <= r.2
            &&& forall|xx: int, yy: int|
                0 <= xx < 300 - size as int && 0 <= yy < 300 - size as int && scanned_before(
                    xx,
                    yy,
                    r.0 as int,
                    r.1 as int,
                ) ==> #[trigger] section_sum(*grid, xx, yy, size as int) < r.2
        },
{
    let cs = &grid.cells;
    let ghost cells = grid.cells@;
    // summed-area table: entry (a, b) holds the sum of the rectangle of
    // rows 0..b and columns 0..a
    let mut pref: Vec<i64> = Vec::new();
    let mut yy: usize = 0;
    while yy < 301
        invariant
            grid.wf(),
            cells == grid.cells@,
            cs@ == cells,
            yy <= 301,
            pref@.len() == yy * 301,
            forall|b: int, a: int|
                0 <= b < yy && 0 <= a < 301 ==> (#[trigger] pref@[b * 301 + a]) as int == rect_sum(
                    cells,
                    0,
                    b,
                    0,
                    a,
                ),
            forall|i: int| 0 <= i < pref@.len() ==> -450000 <= (#[trigger] pref@[i]) <= 450000,
        decreases 301 - yy,
    {
        let mut xx: usize = 0;
        while xx < 301
            invariant
                grid.wf(),
                cells == grid.cells@,
                cs@ == cells,
                yy < 301,
                xx <= 301,
                pref@.len() == yy * 301 + xx,
                forall|b: int, a: int|
                    0 <= b < yy && 0 <= a < 301 ==> (#[trigger] pref@[b * 301 + a]) as int
                        == rect_sum(cells, 0, b, 0, a),
                forall|a: int|
                    0 <= a < xx ==> (#[trigger] pref@[yy * 301 + a]) as int == rect_sum(
                        cells,
                        0,
                        yy as int,
                        0,
                        a,
                    ),
                forall|i: int| 0 <= i < pref@.len() ==> -450000 <= (#[trigger] pref@[i]) <= 450000,
            decreases 301 - xx,
        {
            if yy == 0 || xx == 0 {
                proof {
                    if yy == 0 {
                        assert(rect_sum(cells, 0, 0, 0, xx as int) == 0);
                    } else {
                        lemma_rect_zero_width(cells, 0, yy as int, 0);
                    }
                }
                pref.push(0);
            } else {
                proof {
                    assert(rect_sum(cells, 0, yy as int, 0, xx as int) == rect_sum(
                        cells,
                        0,
                        yy as int - 1,
                        0,
                        xx as int,
                    ) + row_sum(cells, yy as int - 1, 0, xx as int));
                    assert(row_sum(cells, yy as int - 1, 0, xx as int) == row_sum(
                        cells,
                        yy as int - 1,
                        0,
                        xx as int - 1,
                    ) + cells[(yy as int - 1) * 300 + (xx as int - 1)]);
                    assert(rect_sum(cells, 0, yy as int, 0, xx as int - 1) == rect_sum(
                        cells,
                        0,
                        yy as int - 1,
                        0,
                        xx as int - 1,
                    ) + row_sum(cells, yy as int - 1, 0, xx as int - 1));
                    lemma_rect_sum_bound(cells, 0, yy as int, 0, xx as int);
                    assert((pref@[(yy as int - 1) * 301 + xx as int]) as int == rect_sum(
                        cells,
                        0,
                        yy as int - 1,
                        0,
                        xx as int,
                    ));
                    assert((pref@[(yy as int) * 301 + (xx as int - 1)]) as int == rect_sum(
                        cells,
                        0,
                        yy as int,
                        0,
                        xx as int - 1,
                    ));
                    assert((pref@[(yy as int - 1) * 301 + (xx as int - 1)]) as int == rect_sum(
                        cells,
                        0,
                        yy as int - 1,
                        0,
                        xx as int - 1,
                    ));
                    assert(((yy as int - 1) * 300 + (xx as int - 1)) < 90000) by (nonlinear_arith)
                        requires
                            0 <= (yy as int - 1) < 300,
                            0 <= (xx as int - 1) < 300,
                    ;
                }
                let up = pref[(yy - 1) * 301 + xx];
                let left = pref[yy * 301 + (xx - 1)];
                let diag = pref[(yy - 1) * 301 + (xx - 1)];
                let cell_v = cs[(yy - 1) * 300 + (xx - 1)];
                let v = up + left - diag + cell_v;
                proof {
                    assert(v as int == rect_sum(cells, 0, yy as int, 0, xx as int));
                }
                pref.push(v);
            }
            xx = xx + 1;
        }
        yy = yy + 1;
    }
    if size == 300 {
        return (-1, -1, i64::MIN);
    }
    let side = GRID_SIDE - size;
    let mut best_x: i64 = -1;
    let mut best_y: i64 = -1;
    let mut best: i64 = i64::MIN;
    let mut sy: usize = 0;
    while sy < side
        invariant
            grid.wf(),
            cells == grid.cells@,
            size < 300,
            side == 300 - size,
            sy <= side,
            pref@.len() == 301 * 301,
            forall|b: int, a: int|
                0 <= b < 301 && 0 <= a < 301 ==> (#[trigger] pref@[b * 301 + a]) as int == rect_sum(
                    cells,
                    0,
                    b,
                    0,
                    a,
                ),
            forall|i: int| 0 <= i < pref@.len() ==> -450000 <= (#[trigger] pref@[i]) <= 450000,
            sy == 0 ==> best_x == -1 && best_y == -1 && best == i64::MIN,
            sy > 0 ==> {
                &&& 0 <= best_x < side as int
                &&& 0 <= best_y < sy as int
                &&& -450000 <= best <= 450000
                &&& best == section_sum(*grid, best_x as int, best_y as int, size as int)
                &&& forall|a: int, b: int|
                    0 <= a < side as int && 0 <= b < sy ==> #[trigger] section_sum(
                        *grid,
                        a,
                        b,
                        size as int,
                    ) <= best
                &&& forall|a: int, b: int|
                    0 <= a < side as int && 0 <= b < sy && scanned_before(
                        a,
                        b,
                        best_x as int,
                        best_y as int,
                    ) ==> #[trigger] section_sum(*grid, a, b, size as int) < best
            },
        decreases side - sy,
    {
        let mut sx: usize = 0;
        while sx < side
            invariant
                grid.wf(),
                cells == grid.cells@,
                size < 300,
                side == 300 - size,
                sy < side,
                sx <= side,
                pref@.len() == 301 * 301,
                forall|b: int, a: int|
                    0 <= b < 301 && 0 <= a < 301 ==> (#[trigger] pref@[b * 301 + a]) as int
                        == rect_sum(cells, 0, b, 0, a),
                forall|i: int| 0 <= i < pref@.len() ==> -450000 <= (#[trigger] pref@[i]) <= 450000,
                sy == 0 && sx == 0 ==> best_x == -1 && best_y == -1 && best == i64::MIN,
                sy > 0 || sx > 0 ==> {
                    &&& 0 <= best_x < side as int
                    &&& 0 <= best_y <= sy as int
                    &&& (best_y < sy || best_x < sx)
                    &&& -450000 <= best <= 450000
                    &&& best == section_sum(*grid, best_x as int, best_y as int, size as int)
                    &&& forall|a: int, b: int|
                        0 <= a < side as int && 0 <= b < side as int && (b < sy || (b == sy && a
                            < sx)) ==> #[trigger] section_sum(*grid, a, b, size as int) <= best
                    &&& forall|a: int, b: int|
                        0 <= a < side as int && 0 <= b < side as int && (b < sy || (b == sy && a
                            < sx)) && scanned_before(a, b, best_x as int, best_y as int)
                            ==> #[trigger] section_sum(*grid, a, b, size as int) < best
                },
            decreases side - sx,
        {
            proof {
                lemma_rect_split_rows(
                    cells,
                    0,
                    sy as int,
                    sy as int + size as int,
                    0,
                    sx as int + size as int,
                );
                lemma_rect_split_rows(cells, 0, sy as int, sy as int + size as int, 0, sx as int);
                lemma_rect_split_cols(
                    cells,
                    sy as int,
                    sy as int + size as int,
                    0,
                    sx as int,
                    sx as int + size as int,
                );
                lemma_rect_sum_bound(
                    cells,
                    sy as int,
                    sy as int + size as int,
                    sx as int,
                    sx as int + size as int,
                );
                assert((pref@[(sy as int + size as int) * 301 + (sx as int + size as int)]) as int
                    == rect_sum(cells, 0, sy as int + size as int, 0, sx as int + size as int));
                assert((pref@[(sy as int) * 301 + (sx as int + size as int)]) as int == rect_sum(
                    cells,
                    0,
                    sy as int,
                    0,
                    sx as int + size as int,
                ));
                assert((pref@[(sy as int + size as int) * 301 + (sx as int)]) as int == rect_sum(
                    cells,
                    0,
                    sy as int + size as int,
                    0,
                    sx as int,
                ));
                assert((pref@[(sy as int) * 301 + (sx as int)]) as int == rect_sum(
                    cells,
                    0,
                    sy as int,
                    0,
                    sx as int,
                ));
            }
            let pa = pref[(sy + size) * 301 + (sx + size)];
            let pb = pref[sy * 301 + (sx + size)];
            let pc = pref[(sy + size) * 301 + sx];
            let pd = pref[sy * 301 + sx];
            let level = pa - pb - pc + pd;
            proof {
                assert(level as int == section_sum(*grid, sx as int, sy as int, size as int));
            }
            if level > best {
                best = level;
                best_x = sx as i64;
                best_y = sy as i64;
            }
            sx = sx + 1;
        }
        sy = sy + 1;
    }
    (best_x, best_y, best)
}

/// Searches every section size from 1 to 300 and returns the corner, the
/// level and the size of the overall best section, keeping the first size
/// (and within it the first corner) that attains the maximum.
pub fn find_max2(grid: &PowerGrid) -> (r: (i64, i64, i64, usize))
    requires
        grid.wf(),
    ensures
        1 <= r.3 < 300,
        0 <= r.0 < 300 - r.3 as int,
        0 <= r.1 < 300 - r.3 as int,
        r.2 == section_sum(*grid, r.0 as int, r.1 as int, r.3 as int),
        forall|s: int, xx: int, yy: int|
            1 <= s < 300 && 0 <= xx < 300 - s && 0 <= yy < 300 - s ==> #[trigger] section_sum(
                *grid,
                xx,
                yy,
                s,
            ) <= r.2,
        forall|s: int, xx: int, yy: int|
            1 <= s < r.3 as int && 0 <= xx < 300 - s && 0 <= yy < 300 - s
                ==> #[trigger] section_sum(*grid, xx, yy, s) < r.2,
        forall|xx: int, yy: int|
            0 <= xx < 300 - r.3 as int && 0 <= yy < 300 - r.3 as int && scanned_before(
                xx,
                yy,
                r.0 as int,
                r.1 as int,
            ) ==> #[trigger] section_sum(*grid, xx, yy, r.3 as int) < r.2,
{
    let mut best_x: i64 = -1;
    let mut best_y: i64 = -1;
    let mut best: i64 = i64::MIN;
    let mut best_size: usize = 0;
    let mut size: usize = 1;
    while size <= 300
        invariant
            grid.wf(),
            1 <= size <= 301,
            size == 1 ==> best_x == -1 && best_y == -1 && best == i64::MIN && best_size == 0,
            size > 1 ==> {
                &&& 1 <= best_size < 300
                &&& best_size < size
                &&& 0 <= best_x < 300 - best_size as int
                &&& 0 <= best_y < 300 - best_size as int
                &&& best == section_sum(*grid, best_x as int, best_y as int, best_size as int)
                &&& forall|s: int, xx: int, yy: int|
                    1 <= s < size as int && s < 300 && 0 <= xx < 300 - s && 0 <= yy < 300 - s
                        ==> #[trigger] section_sum(*grid, xx, yy, s) <= best
                &&& forall|s: int, xx: int, yy: int|
                    1 <= s < best_size as int && 0 <= xx < 300 - s && 0 <= yy < 300 - s
                        ==> #[trigger] section_sum(*grid, xx, yy, s) < best
                &&& forall|xx: int, yy: int|
                    0 <= xx < 300 - best_size as int && 0 <= yy < 300 - best_size as int
                        && scanned_before(xx, yy, best_x as int, best_y as int)
                        ==> #[trigger] section_sum(*grid, xx, yy, best_size as int) < best
            },
        decreases 301 - size,
    {
        let (x, y, level) = find_max(grid, size);
        if level > best {
            best = level;
            best_x = x;
            best_y = y;
            best_size = size;
            proof {
                assert(size < 300) by {
                    if size == 300 {
                        assert(level == i64::MIN);
                    }
                }
            }
        }
        size = size + 1;
    }
    (best_x, best_y, best, best_size)
}

/// The total power of the square section with corner `(x, y)` and the
/// given side length.
pub fn calc_section_power(grid: &PowerGrid, x: usize, y: usize, size: usize) -> (r: i64)
    requires
        grid.wf(),
        x + size <= 300,
        y + size <= 300,
    ensures
        r == rect_sum(
            grid.cells@,
            y as int,
            y as int + size as int,
            x as int,
            x as int + size as int,
        ),
{
    let mut power: i64 = 0;
    let mut y1: usize = y;
    while y1 < y + size
        invariant
            grid.wf(),
            x + size <= 300,
            y <= y1 <= y + size,
            y + size <= 300,
            power == rect_sum(
                grid.cells@,
                y as int,
                y1 as int,
                x as int,
                x as int + size as int,
            ),
            -1500 * (y1 as int - y as int) <= power <= 1500 * (y1 as int - y as int),
        decreases y + size - y1,
    {
        let row = calc_row_power(grid, x, y1, size);
        proof {
            lemma_row_sum_bound(grid.cells@, y1 as int, x as int, x as int + size as int);
        }
        power = power + row;
        y1 = y1 + 1;
    }
    power
}

} // verus!
