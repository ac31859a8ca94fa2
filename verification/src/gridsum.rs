//! Summed-area tables: for each cell of a grid, the sum of the rectangle from
//! the origin to that cell.

use vstd::prelude::*;

verus! {

/// The buffer index of cell `(x, y)` in a grid `wd` cells wide.
pub open spec fn cell(wd: int, x: int, y: int) -> int {
    y * wd + x
}

/// The sum of row `y` of the grid from column 0 to column `x`.
pub open spec fn row_sum(grid: Seq<usize>, wd: int, x: int, y: int) -> int
    decreases x + 1,
{
    if x < 0 {
        0
    } else {
        row_sum(grid, wd, x - 1, y) + grid[cell(wd, x, y)]
    }
}

/// The sum of the rectangle from cell `(0, 0)` to cell `(x, y)`; zero when the
/// rectangle is empty.
pub open spec fn rect_sum(grid: Seq<usize>, wd: int, x: int, y: int) -> int
    decreases y + 1,
{
    if y < 0 {
        0
    } else {
        rect_sum(grid, wd, x, y - 1) + row_sum(grid, wd, x, y)
    }
}

/// The sum of column `x` from row 0 to row `y`.
spec fn col_sum(grid: Seq<usize>, wd: int, x: int, y: int) -> int
    decreases y + 1,
{
    if y < 0 {
        0
    } else {
        col_sum(grid, wd, x, y - 1) + grid[cell(wd, x, y)]
    }
}

proof fn lemma_col_nonneg(grid: Seq<usize>, wd: int, x: int, y: int)
    ensures
        col_sum(grid, wd, x, y) >= 0,
    decreases y + 1,
{
    if y >= 0 {
        lemma_col_nonneg(grid, wd, x, y - 1);
    }
}

proof fn lemma_rect_minus_left(grid: Seq<usize>, wd: int, x: int, y: int)
    requires
        x >= 0,
    ensures
        rect_sum(grid, wd, x, y) - rect_sum(grid, wd, x - 1, y) == col_sum(grid, wd, x, y),
    decreases y + 1,
{
    if y >= 0 {
        lemma_rect_minus_left(grid, wd, x, y - 1);
    }
}

/// The sum of the rectangle ending at a cell is that cell plus the rectangles
/// ending left of it and above it, minus the one ending diagonally above-left.
pub proof fn lemma_inclusion_exclusion(grid: Seq<usize>, wd: int, x: int, y: int)
    requires
        x >= 0,
        y >= 0,
    ensures
        rect_sum(grid, wd, x, y) == grid[cell(wd, x, y)] + rect_sum(grid, wd, x - 1, y) + rect_sum(
            grid,
            wd,
            x,
            y - 1,
        ) - rect_sum(grid, wd, x - 1, y - 1),
{
    lemma_rect_minus_left(grid, wd, x, y);
    lemma_rect_minus_left(grid, wd, x, y - 1);
}

proof fn lemma_row_nonneg(grid: Seq<usize>, wd: int, x: int, y: int)
    ensures
        row_sum(grid, wd, x, y) >= 0,
    decreases x + 1,
{
    if x >= 0 {
        lemma_row_nonneg(grid, wd, x - 1, y);
    }
}

proof fn lemma_rect_nonneg(grid: Seq<usize>, wd: int, x: int, y: int)
    ensures
        rect_sum(grid, wd, x, y) >= 0,
    decreases y + 1,
{
    if y >= 0 {
        lemma_rect_nonneg(grid, wd, x, y - 1);
        lemma_row_nonneg(grid, wd, x, y);
    }
}

proof fn lemma_rect_empty_columns(grid: Seq<usize>, wd: int, y: int)
    ensures
        rect_sum(grid, wd, -1, y) == 0,
    decreases y + 1,
{
    if y >= 0 {
        lemma_rect_empty_columns(grid, wd, y - 1);
    }
}

/// Every partial value that building the table adds up fits in a `usize`: for
/// each cell, its rectangle sum plus the one ending diagonally above-left.
pub open spec fn table_fits(grid: Seq<usize>, wd: int, ht: int) -> bool {
    forall|x: int, y: int|
        0 <= x < wd && 0 <= y < ht ==> #[trigger] rect_sum(grid, wd, x, y) + rect_sum(
            grid,
            wd,
            x - 1,
            y - 1,
        ) <= usize::MAX
}

/// The summed-area table of a `wd` by `ht` grid stored row by row: entry
/// `y * wd + x` is the sum of all cells `(c, r)` with `c <= x` and `r <= y`.
pub fn summed_area(grid: &Vec<usize>, wd: usize, ht: usize) -> (sums: Vec<usize>)
    requires
        wd * ht <= grid.len(),
        table_fits(grid@, wd as int, ht as int),
    ensures
        sums.len() == wd * ht,
        forall|x: int, y: int|
            0 <= x < wd && 0 <= y < ht ==> #[trigger] sums@[cell(wd as int, x, y)] == rect_sum(
                grid@,
                wd as int,
                x,
                y,
            ),
{
    let mut sums: Vec<usize> = Vec::new();
    let ghost g = grid@;
    let mut y: usize = 0;
    while y < ht
        invariant
            g == grid@,
            wd * ht <= grid.len(),
            table_fits(g, wd as int, ht as int),
            y <= ht,
            sums.len() == y * wd,
            forall|c: int, r: int|
                0 <= c < wd && 0 <= r < y ==> #[trigger] sums@[cell(wd as int, c, r)] == rect_sum(
                    g,
                    wd as int,
                    c,
                    r,
                ),
        decreases ht - y,
    {
        let mut x: usize = 0;
        while x < wd
            invariant
                g == grid@,
                wd * ht <= grid.len(),
                table_fits(g, wd as int, ht as int),
                y < ht,
                x <= wd,
                sums.len() == y * wd + x,
                forall|c: int, r: int|
                    0 <= c < wd && 0 <= r < y ==> #[trigger] sums@[cell(wd as int, c, r)]
                        == rect_sum(g, wd as int, c, r),
                forall|c: int| 0 <= c < x ==> #[trigger] sums@[cell(wd as int, c, y as int)] == rect_sum(
                    g,
                    wd as int,
                    c,
                    y as int,
                ),
            decreases wd - x,
        {
            proof {
                vstd::arithmetic::mul::lemma_mul_inequality(y as int + 1, ht as int, wd as int);
                vstd::arithmetic::mul::lemma_mul_is_distributive_add_other_way(wd as int, y as int, 1);
                vstd::arithmetic::mul::lemma_mul_is_commutative(wd as int, ht as int);
                lemma_inclusion_exclusion(g, wd as int, x as int, y as int);
                lemma_rect_nonneg(g, wd as int, x as int - 1, y as int);
                lemma_rect_nonneg(g, wd as int, x as int, y as int - 1);
                lemma_rect_nonneg(g, wd as int, x as int - 1, y as int - 1);
                if x > 0 {
                    lemma_rect_minus_left(g, wd as int, x as int, y as int - 1);
                    lemma_col_nonneg(g, wd as int, x as int, y as int - 1);
                }
                assert(rect_sum(g, wd as int, x as int, y as int) + rect_sum(
                    g,
                    wd as int,
                    x as int - 1,
                    y as int - 1,
                ) <= usize::MAX);
            }
            let ind = y * wd + x;
            assert(ind == cell(wd as int, x as int, y as int));
            let mut s = grid[ind];
            if x > 0 {
                assert(ind - 1 == cell(wd as int, x - 1, y as int));
                s = s + sums[ind - 1];
            } else {
                proof {
                    lemma_rect_empty_columns(g, wd as int, y as int);
                }
            }
            if y > 0 {
                assert(ind - wd == cell(wd as int, x as int, y - 1)) by {
                    vstd::arithmetic::mul::lemma_mul_is_distributive_sub_other_way(wd as int, y as int, 1);
                }
                s = s + sums[ind - wd];
            } else {
                assert(rect_sum(g, wd as int, x as int, y - 1) == 0);
            }
            if x > 0 && y > 0 {
                assert(ind - wd - 1 == cell(wd as int, x - 1, y - 1)) by {
                    vstd::arithmetic::mul::lemma_mul_is_distributive_sub_other_way(wd as int, y as int, 1);
                }
                s = s - sums[ind - wd - 1];
            } else if x == 0 {
                proof {
                    lemma_rect_empty_columns(g, wd as int, y - 1);
                }
            }
            let ghost before = sums@;
            sums.push(s);
            proof {
                assert forall|c: int, r: int| 0 <= c < wd && 0 <= r < y implies #[trigger] cell(wd as int, c, r) < y * wd by {
                    vstd::arithmetic::mul::lemma_mul_inequality(r + 1, y as int, wd as int);
                    vstd::arithmetic::mul::lemma_mul_is_distributive_add_other_way(wd as int, r, 1);
                    vstd::arithmetic::mul::lemma_mul_is_commutative(wd as int, r);
                    vstd::arithmetic::mul::lemma_mul_is_commutative(wd as int, y as int);
                }
                assert forall|c: int, r: int|
                    0 <= c < wd && 0 <= r < y implies #[trigger] sums@[cell(wd as int, c, r)] == rect_sum(g, wd as int, c, r) by {
                    assert(cell(wd as int, c, r) < y * wd);
                    assert(sums@[cell(wd as int, c, r)] == before[cell(wd as int, c, r)]);
                }
            }
            x = x + 1;
        }
        proof {
            vstd::arithmetic::mul::lemma_mul_is_distributive_add_other_way(wd as int, y as int, 1);
            vstd::arithmetic::mul::lemma_mul_is_commutative(wd as int, y as int);
            vstd::arithmetic::mul::lemma_mul_is_commutative(wd as int, y as int + 1);
        }
        y = y + 1;
    }
    proof {
        vstd::arithmetic::mul::lemma_mul_is_commutative(wd as int, ht as int);
    }
    sums
}


/// The sum of the first `m` values.
pub open spec fn sum_first(g: Seq<usize>, m: int) -> int
    decreases m,
{
    if m <= 0 {
        0
    } else {
        sum_first(g, m - 1) + g[m - 1]
    }
}

proof fn lemma_row_is_span(g: Seq<usize>, wd: int, x: int, y: int)
    requires
        0 <= y,
        -1 <= x,
        wd >= 0,
    ensures
        row_sum(g, wd, x, y) == sum_first(g, y * wd + x + 1) - sum_first(g, y * wd),
    decreases x + 1,
{
    if x >= 0 {
        lemma_row_is_span(g, wd, x - 1, y);
    }
}

/// The last entry of the summed-area table is the sum of the whole grid: the
/// sum of the rectangle up to cell `(x, ht - 1)` with `x = wd - 1` covers the
/// first `wd * ht` values.
pub proof fn law_table_total(g: Seq<usize>, wd: int, ht: int)
    requires
        wd >= 1,
        ht >= 0,
    ensures
        rect_sum(g, wd, wd - 1, ht - 1) == sum_first(g, wd * ht),
    decreases ht,
{
    if ht > 0 {
        law_table_total(g, wd, ht - 1);
        lemma_row_is_span(g, wd, wd - 1, ht - 1);
        assert((ht - 1) * wd + wd == wd * ht) by (nonlinear_arith);
        assert((ht - 1) * wd == wd * (ht - 1)) by (nonlinear_arith);
        assert(rect_sum(g, wd, wd - 1, ht - 1) == rect_sum(g, wd, wd - 1, ht - 2) + row_sum(
            g,
            wd,
            wd - 1,
            ht - 1,
        ));
    } else {
        assert(wd * ht == 0) by (nonlinear_arith)
            requires
                ht == 0,
        ;
    }
}

} // verus!
