//! Summed-area tables over an occupancy grid stored row-major in a flat
//! buffer, and the random slot search that runs over them.
use vstd::prelude::*;
use rand::rngs::StdRng;
use rand::Rng;

verus! {

#[verifier::external_type_specification]
#[verifier::external_body]
pub struct ExStdRng(StdRng);

/// Relies on rand's `Rng::gen_range`: sampling the inclusive range `0..=hi`
/// returns a value in that range (it panics only on an empty range, and
/// this one never is).
#[verifier::external_body]
fn draw_at_most(rng: &mut StdRng, hi: u64) -> (r: u64)
    ensures
        r <= hi,
{
    rng.gen_range(0..=hi)
}

/// An area of the canvas: its top-left corner and its size.
#[derive(Debug, Copy, Clone)]
pub struct Region {
    pub x: u32,
    pub y: u32,
    pub width: u32,
    pub height: u32,
}

/// The space a word needs, margin included.
#[derive(Debug)]
pub struct Rect {
    pub width: u32,
    pub height: u32,
}

/// A top-left position on the canvas.
#[derive(Clone, Copy, Debug)]
pub struct Point {
    pub x: u32,
    pub y: u32,
}

/// Value of cell `(i, j)` of a row-major grid of width `w`.
pub open spec fn cell(g: Seq<u32>, w: int, i: int, j: int) -> int {
    g[i * w + j] as int
}

/// Sum of the first `j` cells of row `i`.
pub open spec fn row_sum(g: Seq<u32>, w: int, i: int, j: int) -> int
    decreases j,
{
    if j <= 0 {
        0
    } else {
        row_sum(g, w, i, j - 1) + cell(g, w, i, j - 1)
    }
}

/// Sum of every cell in rows `0..i` and columns `0..j`.
pub open spec fn prefix(g: Seq<u32>, w: int, i: int, j: int) -> int
    decreases i,
{
    if i <= 0 {
        0
    } else {
        prefix(g, w, i - 1, j) + row_sum(g, w, i - 1, j)
    }
}

/// Sum of the cells in rows `y0..y1` and columns `x0..x1`.
pub open spec fn rect_sum(g: Seq<u32>, w: int, y0: int, y1: int, x0: int, x1: int) -> int
    decreases y1 - y0,
{
    if y1 <= y0 {
        0
    } else {
        rect_sum(g, w, y0, y1 - 1, x0, x1) + (row_sum(g, w, y1 - 1, x1) - row_sum(g, w, y1 - 1, x0))
    }
}

/// Every cell in rows `y..y + h` and columns `x..x + rw` is zero.
pub open spec fn region_clear(g: Seq<u32>, w: int, x: int, y: int, rw: int, rh: int) -> bool {
    forall|i: int, j: int| y <= i < y + rh && x <= j < x + rw ==> #[trigger] cell(g, w, i, j) == 0
}

/// Number of rows of a flat buffer of row width `w`.
pub open spec fn rows_of(len: int, w: int) -> int {
    len / w
}

/// `t` is the summed-area table of grid `g`: each entry is the sum of the
/// grid cells above and to the left of it, itself included.
pub open spec fn is_summed_area_table(t: Seq<u32>, g: Seq<u32>, w: int) -> bool {
    &&& w > 0
    &&& g.len() as int % w == 0
    &&& t.len() == g.len()
    &&& forall|i: int, j: int|
        0 <= i < rows_of(g.len() as int, w) && 0 <= j < w ==> #[trigger] t[i * w + j] as int
            == prefix(g, w, i + 1, j + 1)
}

/// Entry `(i, j)` of the table bordered by a leading row and column of
/// zeros: entry `(i, j)` of `t` sits at `(i + 1, j + 1)`.
pub open spec fn bordered(t: Seq<u32>, w: int, i: int, j: int) -> int {
    if i <= 0 || j <= 0 {
        0
    } else {
        t[(i - 1) * w + (j - 1)] as int
    }
}

/// The four-corner test of a summed-area table for the `rw` by `rh` region
/// whose top-left cell is `(x, y)`.
pub open spec fn corners_balance(t: Seq<u32>, w: int, x: int, y: int, rw: int, rh: int) -> bool {
    bordered(t, w, y, x) + bordered(t, w, y + rh, x + rw) == bordered(t, w, y, x + rw) + bordered(
        t,
        w,
        y + rh,
        x,
    )
}

proof fn lemma_row_index(w: int, i: int, j: int, rows: int)
    requires
        w > 0,
        0 <= i < rows,
        0 <= j < w,
    ensures
        0 <= i * w + j < rows * w,
        (i * w + j) / w == i,
        (i * w + j) % w == j,
{
    assert(0 <= i * w) by (nonlinear_arith)
        requires
            0 <= i,
            w > 0,
    ;
    assert(i * w + j < rows * w) by (nonlinear_arith)
        requires
            i < rows,
            j < w,
            w > 0,
    ;
    vstd::arithmetic::div_mod::lemma_fundamental_div_mod_converse(i * w + j, w, i, j);
}

proof fn lemma_row_segment(g: Seq<u32>, w: int, i: int, x0: int, x1: int)
    requires
        0 <= x0 <= x1,
    ensures
        row_sum(g, w, i, x1) - row_sum(g, w, i, x0) >= 0,
        row_sum(g, w, i, x1) == row_sum(g, w, i, x0) <==> forall|j: int|
            x0 <= j < x1 ==> #[trigger] cell(g, w, i, j) == 0,
    decreases x1 - x0,
{
    if x1 > x0 {
        lemma_row_segment(g, w, i, x0, x1 - 1);
        if row_sum(g, w, i, x1) == row_sum(g, w, i, x0) {
            assert forall|j: int| x0 <= j < x1 implies #[trigger] cell(g, w, i, j) == 0 by {
                if j < x1 - 1 {
                    assert(row_sum(g, w, i, x1 - 1) == row_sum(g, w, i, x0));
                }
            }
        }
    }
}

proof fn lemma_rect_clear(g: Seq<u32>, w: int, y0: int, y1: int, x0: int, x1: int)
    requires
        y0 <= y1,
        0 <= x0 <= x1,
    ensures
        rect_sum(g, w, y0, y1, x0, x1) >= 0,
        rect_sum(g, w, y0, y1, x0, x1) == 0 <==> region_clear(g, w, x0, y0, x1 - x0, y1 - y0),
    decreases y1 - y0,
{
    if y1 > y0 {
        lemma_rect_clear(g, w, y0, y1 - 1, x0, x1);
        lemma_row_segment(g, w, y1 - 1, x0, x1);
        if rect_sum(g, w, y0, y1, x0, x1) == 0 {
            assert forall|i: int, j: int| y0 <= i < y1 && x0 <= j < x1 implies #[trigger] cell(
                g,
                w,
                i,
                j,
            ) == 0 by {
                if i < y1 - 1 {
                    assert(region_clear(g, w, x0, y0, x1 - x0, y1 - 1 - y0));
                }
            }
        }
        if region_clear(g, w, x0, y0, x1 - x0, y1 - y0) {
            assert(region_clear(g, w, x0, y0, x1 - x0, y1 - 1 - y0));
        }
    }
}

proof fn lemma_rect_by_prefix(g: Seq<u32>, w: int, y0: int, y1: int, x0: int, x1: int)
    requires
        0 <= y0 <= y1,
    ensures
        rect_sum(g, w, y0, y1, x0, x1) == prefix(g, w, y1, x1) - prefix(g, w, y0, x1) - prefix(
            g,
            w,
            y1,
            x0,
        ) + prefix(g, w, y0, x0),
    decreases y1 - y0,
{
    if y1 > y0 {
        lemma_rect_by_prefix(g, w, y0, y1 - 1, x0, x1);
    }
}

/// The four-corner test on the summed-area table of a grid holds exactly
/// when every cell of the region is zero, for every region inside the grid.
pub proof fn lemma_region_test_exact(t: Seq<u32>, g: Seq<u32>, w: int, x: int, y: int, rw: int, rh: int)
    requires
        is_summed_area_table(t, g, w),
        0 <= x,
        0 <= y,
        0 <= rw,
        0 <= rh,
        x + rw <= w,
        y + rh <= rows_of(g.len() as int, w),
    ensures
        corners_balance(t, w, x, y, rw, rh) <==> region_clear(g, w, x, y, rw, rh),
{
    let rows = rows_of(g.len() as int, w);
    assert forall|i: int, j: int| 0 <= i <= rows && 0 <= j <= w implies #[trigger] bordered(t, w, i, j)
        == prefix(g, w, i, j) by {
        if i > 0 && j > 0 {
            assert(t[(i - 1) * w + (j - 1)] as int == prefix(g, w, (i - 1) + 1, (j - 1) + 1));
        } else if i <= 0 {
        } else {
            lemma_prefix_zero_cols(g, w, i);
        }
    }
    lemma_rect_by_prefix(g, w, y, y + rh, x, x + rw);
    lemma_rect_clear(g, w, y, y + rh, x, x + rw);
}

proof fn lemma_prefix_zero_cols(g: Seq<u32>, w: int, i: int)
    ensures
        prefix(g, w, i, 0) == 0,
    decreases i,
{
    if i > 0 {
        lemma_prefix_zero_cols(g, w, i - 1);
    }
}

fn bordered_at(table: &[u32], table_width: usize, i: usize, j: usize) -> (r: u32)
    requires
        j <= table_width,
        i * table_width <= table@.len(),
        table@.len() <= usize::MAX,
    ensures
        r as int == bordered(table@, table_width as int, i as int, j as int),
{
    if i == 0 || j == 0 {
        0
    } else {
        proof {
            assert(0 <= (i - 1) * table_width && (i - 1) * table_width + (j - 1) < i * table_width)
                by (nonlinear_arith)
                requires
                    1 <= j <= table_width,
                    i >= 1,
            ;
        }
        table[(i - 1) * table_width + (j - 1)]
    }
}

/// Whether the `width` by `height` region with top-left cell `(x, y)` is
/// empty, read off the summed-area table with the four-corner test (the
/// table taken as bordered by a row and a column of zeros above and left).
pub fn region_is_empty(
    table: &[u32],
    table_width: usize,
    x: usize,
    y: usize,
    width: usize,
    height: usize,
) -> (r: bool)
    requires
        x + width <= table_width,
        y + height <= usize::MAX,
        (y + height) * table_width <= table@.len(),
    ensures
        r == corners_balance(table@, table_width as int, x as int, y as int, width as int, height as int),
{
    // reading the length tells the verifier that it fits in a usize
    let _len = table.len();
    proof {
        assert(y * table_width <= (y + height) * table_width) by (nonlinear_arith);
    }
    let tl = bordered_at(table, table_width, y, x);
    let tr = bordered_at(table, table_width, y, x + width);
    let bl = bordered_at(table, table_width, y + height, x);
    let br = bordered_at(table, table_width, y + height, x + width);
    tl as u64 + br as u64 == tr as u64 + bl as u64
}

/// Entry `(i, j)` after rebuilding a table in place from row `s` on: rows
/// above `s` stay as they are; from row `s` on, each entry becomes the sum
/// of its row's raw values up to it plus the rebuilt entry above it.
pub open spec fn rebuilt(t: Seq<u32>, w: int, s: int, i: int, j: int) -> int
    decreases i,
{
    if i < s || i <= 0 {
        if i < s {
            cell(t, w, i, j)
        } else {
            row_sum(t, w, i, j + 1)
        }
    } else {
        row_sum(t, w, i, j + 1) + rebuilt(t, w, s, i - 1, j)
    }
}

proof fn lemma_index_before(w: int, r: int, j: int, i: int)
    requires
        w > 0,
        0 <= r < i,
        0 <= j < w,
    ensures
        0 <= r * w + j < i * w,
        r * w + j < r * w + w,
{
    assert(0 <= r * w + j < i * w) by (nonlinear_arith)
        requires
            w > 0,
            0 <= r < i,
            0 <= j < w,
    ;
}

proof fn lemma_rows_fit(n: int, w: int)
    requires
        w > 0,
        n >= 0,
    ensures
        0 <= (n / w) * w <= n,
{
    vstd::arithmetic::div_mod::lemma_fundamental_div_mod(n, w);
    vstd::arithmetic::div_mod::lemma_mod_pos_bound(n, w);
    vstd::arithmetic::mul::lemma_mul_is_commutative(n / w, w);
    assert(0 <= n / w) by {
        vstd::arithmetic::div_mod::lemma_div_pos_is_pos(n, w);
    }
    assert(0 <= (n / w) * w) by (nonlinear_arith)
        requires
            0 <= n / w,
            w > 0,
    ;
}

/// Turns the rows from `start_row` on into summed-area rows, in place.
/// Each such row is prefix-summed left to right, and each entry also takes
/// the entry above it, which for the first row rebuilt is the untouched
/// entry of the row before (or zero on the top row). Rows above
/// `start_row`, and cells past the last whole row, are left alone.
pub fn to_summed_area_table(table: &mut [u32], width: usize, start_row: usize)
    requires
        width > 0,
        forall|i: int, j: int|
            start_row <= i < rows_of(old(table)@.len() as int, width as int) && 0 <= j < width
                ==> #[trigger] rebuilt(old(table)@, width as int, start_row as int, i, j)
                <= u32::MAX,
    ensures
        final(table)@.len() == old(table)@.len(),
        forall|i: int, j: int|
            0 <= i < rows_of(old(table)@.len() as int, width as int) && 0 <= j < width
                ==> #[trigger] cell(final(table)@, width as int, i, j) == rebuilt(
                old(table)@,
                width as int,
                start_row as int,
                i,
                j,
            ),
        forall|k: int|
            rows_of(old(table)@.len() as int, width as int) * width <= k < old(table)@.len()
                ==> final(table)@[k] == old(table)@[k],
        start_row == 0 && old(table)@.len() as int % width as int == 0 ==> is_summed_area_table(
            final(table)@,
            old(table)@,
            width as int,
        ),
{
    let n = table.len();
    let rows = n / width;
    let ghost w = width as int;
    let ghost s = start_row as int;
    let ghost t0 = table@;
    proof {
        lemma_rows_fit(n as int, w);
    }
    let mut i: usize = start_row;
    while i < rows
        invariant
            table@.len() == n,
            n == t0.len(),
            rows == rows_of(n as int, w),
            w == width,
            s == start_row,
            width > 0,
            rows * width <= n,
            start_row <= i,
            i <= rows || i == start_row,
            forall|r: int, j: int|
                start_row <= r < rows && 0 <= j < width ==> #[trigger] rebuilt(t0, w, s, r, j)
                    <= u32::MAX,
            forall|r: int, j: int|
                0 <= r < i && r < rows && 0 <= j < width ==> #[trigger] cell(table@, w, r, j)
                    == rebuilt(t0, w, s, r, j),
            forall|k: int| i * width <= k < n ==> table@[k] == t0[k],
            forall|k: int| 0 <= k < start_row * width && k < n ==> table@[k] == t0[k],
        decreases rows - i,
    {
        let mut sum: u64 = 0;
        let mut j: usize = 0;
        proof {
            lemma_row_index(w, i as int, 0, rows as int);
        }
        while j < width
            invariant
                table@.len() == n,
                n == t0.len(),
                rows == rows_of(n as int, w),
                w == width,
                s == start_row,
                width > 0,
                rows * width <= n,
                start_row <= i < rows,
                j <= width,
                sum == row_sum(t0, w, i as int, j as int),
                sum <= u32::MAX,
                forall|r: int, jj: int|
                    start_row <= r < rows && 0 <= jj < width ==> #[trigger] rebuilt(t0, w, s, r, jj)
                        <= u32::MAX,
                forall|r: int, jj: int|
                    0 <= r < i && 0 <= jj < width ==> #[trigger] cell(table@, w, r, jj) == rebuilt(
                        t0,
                        w,
                        s,
                        r,
                        jj,
                    ),
                forall|jj: int| 0 <= jj < j ==> #[trigger] cell(table@, w, i as int, jj) == rebuilt(
                    t0,
                    w,
                    s,
                    i as int,
                    jj,
                ),
                forall|k: int| i * width + j <= k < n ==> table@[k] == t0[k],
                forall|k: int| 0 <= k < start_row * width && k < n ==> table@[k] == t0[k],
            decreases width - j,
        {
            proof {
                lemma_row_index(w, i as int, j as int, rows as int);
            }
            let k = i * width + j;
            let orig = table[k];
            let above: u32 = if i == 0 {
                0
            } else {
                proof {
                    lemma_index_before(w, i - 1, j as int, i as int);
                    assert((i - 1) * w + j == i * w + j - w) by (nonlinear_arith);
                    if i - 1 < start_row {
                        assert((i - 1) * w + j < start_row * w) by (nonlinear_arith)
                            requires
                                i - 1 < start_row,
                                j < w,
                        ;
                        assert(table@[(i - 1) * w + j] == t0[(i - 1) * w + j]);
                    } else {
                        assert(cell(table@, w, i - 1, j as int) == rebuilt(t0, w, s, i - 1, j as int));
                    }
                }
                table[k - width]
            };
            assert(above as int == (if i == 0 { 0 } else { rebuilt(t0, w, s, i - 1, j as int) }));
            assert(cell(t0, w, i as int, j as int) == orig);
            let v: u64 = orig as u64 + sum + above as u64;
            assert(v == rebuilt(t0, w, s, i as int, j as int));
            let ghost prev = table@;
            table[k] = v as u32;
            sum = sum + orig as u64;
            proof {
                assert forall|r: int, jj: int| 0 <= r < i && 0 <= jj < width implies #[trigger] cell(
                    table@,
                    w,
                    r,
                    jj,
                ) == rebuilt(t0, w, s, r, jj) by {
                    lemma_index_before(w, r, jj, i as int);
                    assert(cell(prev, w, r, jj) == rebuilt(t0, w, s, r, jj));
                }
                assert forall|jj: int| 0 <= jj < j + 1 implies #[trigger] cell(table@, w, i as int, jj)
                    == rebuilt(t0, w, s, i as int, jj) by {
                    lemma_row_index(w, i as int, jj, rows as int);
                    if jj < j {
                        assert(cell(prev, w, i as int, jj) == rebuilt(t0, w, s, i as int, jj));
                    }
                }
                assert forall|k: int| 0 <= k < start_row * width && k < n implies table@[k] == t0[k] by {
                    assert(start_row * w <= i * w) by (nonlinear_arith)
                        requires
                            start_row <= i,
                            w > 0,
                    ;
                }
            }
            j += 1;
        }
        proof {
            assert((i + 1) * w == i * w + w) by (nonlinear_arith);
        }
        i += 1;
    }
    proof {
        assert forall|k: int| rows * width <= k < n implies table@[k] == t0[k] by {
            if i > rows {
                assert(rows * w <= start_row * w) by (nonlinear_arith)
                    requires
                        rows < start_row,
                        w > 0,
                ;
            }
        }
        assert forall|r: int, j: int| 0 <= r < rows && 0 <= j < width implies #[trigger] cell(
            table@,
            w,
            r,
            j,
        ) == rebuilt(t0, w, s, r, j) by {
            if i > rows {
                lemma_index_before(w, r, j, start_row as int);
                assert(cell(table@, w, r, j) == cell(t0, w, r, j));
            }
        }
    }
    proof {
        if start_row == 0 && n as int % w == 0 {
            assert forall|i: int, j: int| 0 <= i < rows_of(t0.len() as int, w) && 0 <= j < w implies #[trigger] table@[i * w + j] as int
                == prefix(t0, w, i + 1, j + 1) by {
                assert(cell(table@, w, i, j) == rebuilt(t0, w, s, i, j));
                lemma_build_is_summed_area_table(t0, w, i, j);
            }
        }
    }
}

proof fn lemma_row_sum_same_row(g1: Seq<u32>, g2: Seq<u32>, w: int, i1: int, i2: int, j: int)
    requires
        forall|jj: int| 0 <= jj < j ==> cell(g1, w, i1, jj) == cell(g2, w, i2, jj),
    ensures
        row_sum(g1, w, i1, j) == row_sum(g2, w, i2, j),
    decreases j,
{
    if j > 0 {
        lemma_row_sum_same_row(g1, g2, w, i1, i2, j - 1);
    }
}

proof fn lemma_prefix_same_rows(g1: Seq<u32>, g2: Seq<u32>, w: int, i: int, j: int)
    requires
        forall|r: int, jj: int| 0 <= r < i && 0 <= jj < j ==> cell(g1, w, r, jj) == cell(g2, w, r, jj),
    ensures
        prefix(g1, w, i, j) == prefix(g2, w, i, j),
    decreases i,
{
    if i > 0 {
        lemma_prefix_same_rows(g1, g2, w, i - 1, j);
        lemma_row_sum_same_row(g1, g2, w, i - 1, i - 1, j);
    }
}

proof fn lemma_rebuilt_is_prefix(before: Seq<u32>, after: Seq<u32>, t: Seq<u32>, w: int, h: int, s: int, i: int, j: int)
    requires
        w > 0,
        0 <= s,
        0 <= i < h,
        0 <= j < w,
        forall|r: int, jj: int| 0 <= r < s && 0 <= jj < w ==> cell(before, w, r, jj) == cell(after, w, r, jj),
        forall|r: int, jj: int| 0 <= r < s && 0 <= jj < w ==> #[trigger] cell(t, w, r, jj) == prefix(before, w, r + 1, jj + 1),
        forall|r: int, jj: int| s <= r < h && 0 <= jj < w ==> #[trigger] cell(t, w, r, jj) == cell(after, w, r, jj),
    ensures
        rebuilt(t, w, s, i, j) == prefix(after, w, i + 1, j + 1),
    decreases i,
{
    if i < s {
        assert(cell(t, w, i, j) == prefix(before, w, i + 1, j + 1));
        assert forall|r: int, jj: int| 0 <= r < i + 1 && 0 <= jj < j + 1 implies cell(before, w, r, jj)
            == cell(after, w, r, jj) by {}
        lemma_prefix_same_rows(before, after, w, i + 1, j + 1);
    } else {
        assert forall|jj: int| 0 <= jj < j + 1 implies cell(t, w, i, jj) == cell(after, w, i, jj) by {
            assert(cell(t, w, i, jj) == cell(after, w, i, jj));
        }
        lemma_row_sum_same_row(t, after, w, i, i, j + 1);
        if i > 0 {
            lemma_rebuilt_is_prefix(before, after, t, w, h, s, i - 1, j);
        }
        assert(prefix(after, w, i + 1, j + 1) == prefix(after, w, i, j + 1) + row_sum(after, w, i, j + 1));
    }
}

/// Rebuilding from scratch (from row zero) yields the summed-area table.
pub proof fn lemma_build_is_summed_area_table(g: Seq<u32>, w: int, i: int, j: int)
    requires
        w > 0,
        0 <= i,
        0 <= j < w,
    ensures
        rebuilt(g, w, 0, i, j) == prefix(g, w, i + 1, j + 1),
{
    lemma_rebuilt_is_prefix(g, g, g, w, i + 1, 0, i, j);
}

/// Partial rebuild equals a full build. Let `after` be the grid `before`
/// once cells in rows `s` and below were stamped, and let `t` hold the
/// summed-area rows of `before` above row `s` and the raw rows of `after`
/// from row `s` down to row `h`. Rebuilding `t` from row `s` gives, entry for entry, the
/// table that a rebuild of `after` from row zero gives.
pub proof fn lemma_rebuild_after_stamp(before: Seq<u32>, after: Seq<u32>, t: Seq<u32>, w: int, h: int, s: int)
    requires
        w > 0,
        0 <= s,
        forall|r: int, jj: int| 0 <= r < s && 0 <= jj < w ==> cell(before, w, r, jj) == cell(after, w, r, jj),
        forall|r: int, jj: int| 0 <= r < s && 0 <= jj < w ==> #[trigger] cell(t, w, r, jj) == prefix(before, w, r + 1, jj + 1),
        forall|r: int, jj: int| s <= r < h && 0 <= jj < w ==> #[trigger] cell(t, w, r, jj) == cell(after, w, r, jj),
    ensures
        forall|i: int, j: int| 0 <= i < h && 0 <= j < w ==> #[trigger] rebuilt(t, w, s, i, j) == rebuilt(after, w, 0, i, j),
{
    assert forall|i: int, j: int| 0 <= i < h && 0 <= j < w implies #[trigger] rebuilt(t, w, s, i, j) == rebuilt(after, w, 0, i, j) by {
        lemma_rebuilt_is_prefix(before, after, t, w, h, s, i, j);
        lemma_build_is_summed_area_table(after, w, i, j);
    }
}

/// A `rw` by `rh` region with top-left cell `(x, y)` lies inside the
/// `width` by `height` canvas and the table finds it empty.
pub open spec fn slot_open(t: Seq<u32>, width: int, height: int, rw: int, rh: int, x: int, y: int) -> bool {
    &&& 0 <= x
    &&& 0 <= y
    &&& x + rw <= width
    &&& y + rh <= height
    &&& corners_balance(t, width, x, y, rw, rh)
}

/// Column `x` lies in the scan range that the skip list gives row `y`
/// (a row past the end of the list has none).
pub open spec fn in_skip_range(skip: Seq<(usize, usize)>, y: int, x: int) -> bool {
    0 <= y < skip.len() && skip[y].0 <= x <= skip[y].1
}

/// Position `(x, y)` is one that a search with the optional skip list looks at.
pub open spec fn considered(skip: Option<Seq<(usize, usize)>>, y: int, x: int) -> bool {
    match skip {
        None => true,
        Some(s) => in_skip_range(s, y, x),
    }
}

pub open spec fn skip_view(skip: Option<&[(usize, usize)]>) -> Option<Seq<(usize, usize)>> {
    match skip {
        None => None,
        Some(s) => Some(s@),
    }
}

/// `(x, y)` is a slot that the search considers and finds open.
pub open spec fn is_candidate(t: Seq<u32>, tw: int, th: int, rw: int, rh: int, sk: Option<Seq<(usize, usize)>>, x: int, y: int) -> bool {
    slot_open(t, tw, th, rw, rh, x, y) && considered(sk, y, x)
}

/// The candidates of row `y` among columns `0..xend`, left to right.
pub open spec fn row_candidates(t: Seq<u32>, tw: int, th: int, rw: int, rh: int, sk: Option<Seq<(usize, usize)>>, y: int, xend: int) -> Seq<(int, int)>
    decreases xend,
{
    if xend <= 0 {
        Seq::empty()
    } else {
        let r = row_candidates(t, tw, th, rw, rh, sk, y, xend - 1);
        if is_candidate(t, tw, th, rw, rh, sk, xend - 1, y) {
            r.push((xend - 1, y))
        } else {
            r
        }
    }
}

/// The candidates of rows `0..yend`, in scan order: row by row, each row
/// left to right.
pub open spec fn candidates(t: Seq<u32>, tw: int, th: int, rw: int, rh: int, sk: Option<Seq<(usize, usize)>>, yend: int) -> Seq<(int, int)>
    decreases yend,
{
    if yend <= 0 {
        Seq::empty()
    } else {
        candidates(t, tw, th, rw, rh, sk, yend - 1) + row_candidates(t, tw, th, rw, rh, sk, yend - 1, tw + 1)
    }
}

/// What reservoir sampling holds after the first `k` candidates of `c`,
/// given the draws `d`: the last candidate `i < k` whose draw was `i`.
pub open spec fn reservoir_pick(c: Seq<(int, int)>, d: Seq<u64>, k: int) -> Option<(int, int)>
    decreases k,
{
    if k <= 0 {
        None
    } else if d[k - 1] == k - 1 {
        Some(c[k - 1])
    } else {
        reservoir_pick(c, d, k - 1)
    }
}

/// The held slot is the given position, or both are absent.
pub open spec fn holds(held: Option<Point>, pick: Option<(int, int)>) -> bool {
    match held {
        None => pick is None,
        Some(p) => pick == Some((p.x as int, p.y as int)),
    }
}

/// Some draws, the `k`-th from `0..=k`, make reservoir sampling over the
/// candidates end holding `r`. The draws themselves come from the random
/// source and have no name here, so this says only that `r` is reachable:
/// every candidate is, by some draws. The rule that each draw is applied by
/// is `reservoir_step`, which the scan calls.
pub open spec fn drawn_from(r: Option<Point>, c: Seq<(int, int)>) -> bool {
    exists|d: Seq<u64>|
        #![trigger reservoir_pick(c, d, d.len() as int)]
        d.len() == c.len() && (forall|k: int| 0 <= k < d.len() ==> d[k] <= k) && holds(r, reservoir_pick(c, d, d.len() as int))
}

/// One step of reservoir sampling: the `count`-th open slot found (counted
/// from zero), at `(x, y)`, replaces the held one exactly when its draw
/// `pick` from `0..=count` is `count`.
pub fn reservoir_step(held: Option<Point>, count: u64, pick: u64, x: u32, y: u32) -> (r: Option<Point>)
    ensures
        r == (if pick == count { Some(Point { x, y }) } else { held }),
{
    if pick == count {
        Some(Point { x, y })
    } else {
        held
    }
}

proof fn lemma_row_candidates_skip(t: Seq<u32>, tw: int, th: int, rw: int, rh: int, sk: Option<Seq<(usize, usize)>>, y: int, a: int, b: int)
    requires
        0 <= a <= b,
        forall|px: int| a <= px < b ==> !#[trigger] is_candidate(t, tw, th, rw, rh, sk, px, y),
    ensures
        row_candidates(t, tw, th, rw, rh, sk, y, b) == row_candidates(t, tw, th, rw, rh, sk, y, a),
    decreases b - a,
{
    if b > a {
        lemma_row_candidates_skip(t, tw, th, rw, rh, sk, y, a, b - 1);
    }
}

proof fn lemma_candidates_skip(t: Seq<u32>, tw: int, th: int, rw: int, rh: int, sk: Option<Seq<(usize, usize)>>, a: int, b: int)
    requires
        0 <= a <= b,
        tw >= 0,
        forall|px: int, py: int| a <= py < b ==> !#[trigger] is_candidate(t, tw, th, rw, rh, sk, px, py),
    ensures
        candidates(t, tw, th, rw, rh, sk, b) == candidates(t, tw, th, rw, rh, sk, a),
    decreases b - a,
{
    if b > a {
        lemma_candidates_skip(t, tw, th, rw, rh, sk, a, b - 1);
        lemma_row_candidates_skip(t, tw, th, rw, rh, sk, b - 1, 0, tw + 1);
        assert(candidates(t, tw, th, rw, rh, sk, b) =~= candidates(t, tw, th, rw, rh, sk, b - 1));
    }
}

/// A box larger than the canvas has no candidate position.
pub proof fn lemma_no_candidates_when_too_large(t: Seq<u32>, tw: int, th: int, rw: int, rh: int, sk: Option<Seq<(usize, usize)>>)
    requires
        tw >= 0,
        th >= 0,
        rw > tw || rh > th,
    ensures
        candidates(t, tw, th, rw, rh, sk, th + 1).len() == 0,
{
    lemma_candidates_skip(t, tw, th, rw, rh, sk, 0, th + 1);
}

proof fn lemma_pick_prefix(c1: Seq<(int, int)>, c2: Seq<(int, int)>, d1: Seq<u64>, d2: Seq<u64>, k: int)
    requires
        forall|i: int| 0 <= i < k ==> c1[i] == c2[i] && d1[i] == d2[i],
    ensures
        reservoir_pick(c1, d1, k) == reservoir_pick(c2, d2, k),
    decreases k,
{
    if k > 0 {
        lemma_pick_prefix(c1, c2, d1, d2, k - 1);
    }
}

proof fn lemma_pick_is_earlier(c: Seq<(int, int)>, d: Seq<u64>, k: int)
    ensures
        reservoir_pick(c, d, k) matches Some(e) ==> exists|i: int| 0 <= i < k && e == c[i],
    decreases k,
{
    if k > 0 {
        lemma_pick_is_earlier(c, d, k - 1);
        if d[k - 1] == k - 1 {
            assert(reservoir_pick(c, d, k) == Some(c[k - 1]));
        }
    }
}

/// The scan ends holding candidate `j` of `n` exactly when the draw for
/// `j` was `j` and no later candidate's draw was its own index. With
/// independent uniform draws that has chance `1 / (j + 1)` times `k / (k + 1)`
/// for each later `k`, which `lemma_reservoir_uniform` shows is `1 / n`.
pub proof fn lemma_pick_is_last_fixed_draw(c: Seq<(int, int)>, d: Seq<u64>, n: int, j: int)
    requires
        0 <= j < n <= c.len(),
    ensures
        (d[j] == j && forall|k: int| j < k < n ==> d[k] != k) ==> reservoir_pick(c, d, n) == Some(c[j]),
        reservoir_pick(c, d, n) == Some(c[j]) && (forall|i: int, k: int| 0 <= i < k < n ==> c[i] != c[k]) ==> d[j] == j && forall|k: int| j < k < n ==> d[k] != k,
    decreases n,
{
    if n > j + 1 {
        lemma_pick_is_last_fixed_draw(c, d, n - 1, j);
        if reservoir_pick(c, d, n) == Some(c[j]) && (forall|i: int, k: int| 0 <= i < k < n ==> c[i] != c[k]) {
            assert(d[n - 1] != n - 1) by {
                if d[n - 1] == n - 1 {
                    assert(c[j] != c[n - 1]);
                }
            }
        }
    } else if d[j] != j {
        lemma_pick_is_earlier(c, d, j);
        if reservoir_pick(c, d, n) == Some(c[j]) && (forall|i: int, k: int| 0 <= i < k < n ==> c[i] != c[k]) {
            let i = choose|i: int| 0 <= i < j && c[j] == c[i];
            assert(c[i] != c[j]);
        }
    }
}

/// Reservoir sampling over the open slots that the search considers,
/// scanned row by row: for the `k`-th open slot found (from zero) a number
/// is drawn from `0..=k` and `reservoir_step` applies it.
pub(crate) fn reservoir_scan(
    table: &[u32],
    table_width: u32,
    table_height: u32,
    rect: &Rect,
    skip: Option<&[(usize, usize)]>,
    rng: &mut StdRng,
) -> (r: Option<Point>)
    requires
        table_width as int * table_height as int <= table@.len(),
        (table_width as int + 1) * (table_height as int + 1) <= u64::MAX,
    ensures
        r is None <==> forall|x: int, y: int|
            !(#[trigger] slot_open(table@, table_width as int, table_height as int, rect.width as int, rect.height as int, x, y)
                && considered(skip_view(skip), y, x)),
        r matches Some(p) ==> slot_open(table@, table_width as int, table_height as int, rect.width as int, rect.height as int, p.x as int, p.y as int)
            && considered(skip_view(skip), p.y as int, p.x as int),
        drawn_from(r, candidates(table@, table_width as int, table_height as int, rect.width as int, rect.height as int, skip_view(skip), table_height + 1)),
        r is None ==> *final(rng) == *old(rng),
{
    let ghost t = table@;
    let ghost tw = table_width as int;
    let ghost th = table_height as int;
    let ghost rw = rect.width as int;
    let ghost rh = rect.height as int;
    let ghost sk = skip_view(skip);
    if rect.width > table_width || rect.height > table_height {
        proof {
            lemma_no_candidates_when_too_large(t, tw, th, rw, rh, sk);
            let d = Seq::<u64>::empty();
            assert(holds(None, reservoir_pick(candidates(t, tw, th, rw, rh, sk, th + 1), d, d.len() as int)));
        }
        return None;
    }
    let max_x: u64 = (table_width - rect.width) as u64;
    let max_y: u64 = (table_height - rect.height) as u64;
    let mut count: u64 = 0;
    let mut held: Option<Point> = None;
    let ghost mut draws: Seq<u64> = Seq::empty();
    let mut y: u64 = 0;
    while y <= max_y
        invariant
            table@ == t,
            tw == table_width,
            th == table_height,
            rw == rect.width,
            rh == rect.height,
            sk == skip_view(skip),
            max_x == tw - rw,
            max_y == th - rh,
            tw * th <= t.len(),
            (tw + 1) * (th + 1) <= u64::MAX,
            y <= max_y + 1,
            count <= y * (max_x + 1),
            held is None <==> count == 0,
            count == 0 ==> forall|px: int, py: int|
                0 <= py < y ==> !(#[trigger] slot_open(t, tw, th, rw, rh, px, py) && considered(sk, py, px)),
            held matches Some(p) ==> slot_open(t, tw, th, rw, rh, p.x as int, p.y as int) && considered(sk, p.y as int, p.x as int),
            draws.len() == count,
            forall|k: int| 0 <= k < draws.len() ==> draws[k] <= k,
            candidates(t, tw, th, rw, rh, sk, y as int).len() == count,
            holds(held, reservoir_pick(candidates(t, tw, th, rw, rh, sk, y as int), draws, count as int)),
            count == 0 ==> *rng == *old(rng),
        decreases max_y + 1 - y,
    {
        let (lo, hi): (u64, u64) = match skip {
            None => (0, max_x),
            Some(s) => {
                if (y as usize) < s.len() {
                    let (first, last) = s[y as usize];
                    let last_x: u64 = if (last as u64) < max_x { last as u64 } else { max_x };
                    let first_x: u64 = if (first as u64) <= last_x { first as u64 } else { last_x + 1 };
                    (first_x, last_x)
                } else {
                    (1, 0)
                }
            },
        };
        assert forall|px: int| 0 <= px < lo && considered(sk, y as int, px) implies false by {}
        assert forall|px: int| lo <= px <= hi implies considered(sk, y as int, px) by {}
        let mut x: u64 = lo;
        proof {
            assert(count <= y * (max_x + 1) + 0);
            lemma_row_candidates_skip(t, tw, th, rw, rh, sk, y as int, 0, lo as int);
            assert(candidates(t, tw, th, rw, rh, sk, y as int) + row_candidates(t, tw, th, rw, rh, sk, y as int, lo as int)
                =~= candidates(t, tw, th, rw, rh, sk, y as int));
        }
        while x <= hi
            invariant
                table@ == t,
                tw == table_width,
                th == table_height,
                rw == rect.width,
                rh == rect.height,
                sk == skip_view(skip),
                max_x == tw - rw,
                max_y == th - rh,
                tw * th <= t.len(),
                (tw + 1) * (th + 1) <= u64::MAX,
                y <= max_y,
                lo <= x,
                lo <= hi + 1,
                hi <= max_x,
                forall|px: int| lo <= px <= hi ==> considered(sk, y as int, px),
                forall|px: int| 0 <= px < lo && considered(sk, y as int, px) ==> false,
                forall|px: int| hi < px && considered(sk, y as int, px) ==> px > max_x,
                x <= hi + 1,
                count <= y * (max_x + 1) + x,
                held is None <==> count == 0,
                count == 0 ==> forall|px: int, py: int|
                    (0 <= py < y || (py == y && px < x)) ==> !(#[trigger] slot_open(t, tw, th, rw, rh, px, py) && considered(sk, py, px)),
                held matches Some(p) ==> slot_open(t, tw, th, rw, rh, p.x as int, p.y as int) && considered(sk, p.y as int, p.x as int),
                draws.len() == count,
                forall|k: int| 0 <= k < draws.len() ==> draws[k] <= k,
                (candidates(t, tw, th, rw, rh, sk, y as int) + row_candidates(t, tw, th, rw, rh, sk, y as int, x as int)).len() == count,
                holds(held, reservoir_pick(candidates(t, tw, th, rw, rh, sk, y as int) + row_candidates(t, tw, th, rw, rh, sk, y as int, x as int), draws, count as int)),
                count == 0 ==> *rng == *old(rng),
            decreases hi + 1 - x,
        {
            proof {
                assert(y * tw <= y * tw) by (nonlinear_arith);
                assert((y + rh) * tw <= th * tw) by (nonlinear_arith)
                    requires
                        y + rh <= th,
                        tw >= 0,
                ;
                assert(th * tw == tw * th) by (nonlinear_arith);
            }
            let empty = region_is_empty(table, table_width as usize, x as usize, y as usize, rect.width as usize, rect.height as usize);
            let ghost c0 = candidates(t, tw, th, rw, rh, sk, y as int) + row_candidates(t, tw, th, rw, rh, sk, y as int, x as int);
            let ghost c1 = candidates(t, tw, th, rw, rh, sk, y as int) + row_candidates(t, tw, th, rw, rh, sk, y as int, x as int + 1);
            assert(is_candidate(t, tw, th, rw, rh, sk, x as int, y as int) == empty);
            if empty {
                proof {
                    assert(y * (max_x + 1) + x + 1 <= (max_y + 1) * (max_x + 1)) by (nonlinear_arith)
                        requires
                            x <= max_x,
                            y <= max_y,
                    ;
                    assert((max_y + 1) * (max_x + 1) <= (th + 1) * (tw + 1)) by (nonlinear_arith)
                        requires
                            0 <= max_x <= tw,
                            0 <= max_y <= th,
                    ;
                    assert((th + 1) * (tw + 1) == (tw + 1) * (th + 1)) by (nonlinear_arith);
                }
                let pick = draw_at_most(rng, count);
                let ghost d0 = draws;
                held = reservoir_step(held, count, pick, x as u32, y as u32);
                proof {
                    draws = draws.push(pick);
                    assert(c1 =~= c0.push((x as int, y as int)));
                    lemma_pick_prefix(c0, c1, d0, draws, count as int);
                }
                count = count + 1;
            } else {
                assert(c1 =~= c0);
            }
            x = x + 1;
        }
        proof {
            assert forall|px: int| hi + 1 <= px < tw + 1 implies !#[trigger] is_candidate(t, tw, th, rw, rh, sk, px, y as int) by {
                if considered(sk, y as int, px) {
                    assert(px > max_x);
                }
            }
            lemma_row_candidates_skip(t, tw, th, rw, rh, sk, y as int, hi as int + 1, tw + 1);
            assert(candidates(t, tw, th, rw, rh, sk, y as int + 1)
                == candidates(t, tw, th, rw, rh, sk, y as int) + row_candidates(t, tw, th, rw, rh, sk, y as int, tw + 1));
            assert(count <= (y + 1) * (max_x + 1)) by (nonlinear_arith)
                requires
                    count <= y * (max_x + 1) + x,
                    x <= max_x + 1,
            ;
            if count == 0 {
                assert forall|px: int, py: int| 0 <= py < y + 1 implies !(#[trigger] slot_open(t, tw, th, rw, rh, px, py) && considered(sk, py, px)) by {
                    if py == y && px >= x && slot_open(t, tw, th, rw, rh, px, py) && considered(sk, py, px) {
                        assert(px > max_x);
                    }
                }
            }
        }
        y = y + 1;
    }
    proof {
        assert forall|px: int, py: int| max_y + 1 <= py < th + 1 implies !#[trigger] is_candidate(t, tw, th, rw, rh, sk, px, py) by {}
        lemma_candidates_skip(t, tw, th, rw, rh, sk, max_y as int + 1, th + 1);
        assert(holds(held, reservoir_pick(candidates(t, tw, th, rw, rh, sk, th + 1), draws, draws.len() as int)));
        if count == 0 {
            assert forall|px: int, py: int| !(#[trigger] slot_open(t, tw, th, rw, rh, px, py) && considered(sk, py, px)) by {
                if slot_open(t, tw, th, rw, rh, px, py) {
                    assert(py < y);
                }
            }
        }
    }
    held
}

/// A top-left position among those where a region of `rect`'s size lies
/// inside the canvas and the table finds it empty; `None` when there is no
/// such position, in which case no number is drawn. The open positions are
/// scanned row by row, and for the `k`-th one found (from zero) a number is
/// drawn from `0..=k` and handed to `reservoir_step`, which takes that
/// position exactly when the number is `k`. The contract states that the
/// result is an open position that some such draws select; that the choice
/// is uniform when the draws are rests on the random source, and is shown
/// by `lemma_pick_is_last_fixed_draw` and `lemma_reservoir_uniform`.
pub fn find_space_for_rect(
    table: &[u32],
    table_width: u32,
    table_height: u32,
    rect: &Rect,
    rng: &mut StdRng,
) -> (r: Option<Point>)
    requires
        table_width as int * table_height as int <= table@.len(),
        (table_width as int + 1) * (table_height as int + 1) <= u64::MAX,
    ensures
        r is None <==> forall|x: int, y: int|
            !#[trigger] slot_open(table@, table_width as int, table_height as int, rect.width as int, rect.height as int, x, y),
        r matches Some(p) ==> slot_open(table@, table_width as int, table_height as int, rect.width as int, rect.height as int, p.x as int, p.y as int),
        drawn_from(r, candidates(table@, table_width as int, table_height as int, rect.width as int, rect.height as int, None, table_height + 1)),
        r is None ==> *final(rng) == *old(rng),
{
    reservoir_scan(table, table_width, table_height, rect, None, rng)
}

/// As `find_space_for_rect`, but row `y` is scanned only over the columns
/// `skip_list[y].0 ..= skip_list[y].1`: the result is an open slot in those
/// ranges, picked by the same reservoir step, and `None` comes back when
/// there is none.
pub fn find_space_for_rect_masked(
    table: &[u32],
    table_width: u32,
    table_height: u32,
    skip_list: &[(usize, usize)],
    rect: &Rect,
    rng: &mut StdRng,
) -> (r: Option<Point>)
    requires
        table_width as int * table_height as int <= table@.len(),
        (table_width as int + 1) * (table_height as int + 1) <= u64::MAX,
    ensures
        r is None <==> forall|x: int, y: int|
            !(#[trigger] slot_open(table@, table_width as int, table_height as int, rect.width as int, rect.height as int, x, y)
                && in_skip_range(skip_list@, y, x)),
        r matches Some(p) ==> slot_open(table@, table_width as int, table_height as int, rect.width as int, rect.height as int, p.x as int, p.y as int)
            && in_skip_range(skip_list@, p.y as int, p.x as int),
        drawn_from(r, candidates(table@, table_width as int, table_height as int, rect.width as int, rect.height as int, Some(skip_list@), table_height + 1)),
        r is None ==> *final(rng) == *old(rng),
{
    reservoir_scan(table, table_width, table_height, rect, Some(skip_list), rng)
}

/// Numerator of the chance that a scan over `n` open slots ends holding
/// slot `j` (counted from zero), the draws being independent and uniform:
/// slot `j` is taken when the draw from `0..=j` is `j`, and kept past each
/// later slot `k` when the draw from `0..=k` is not `k`.
pub open spec fn keep_numerator(j: nat, n: nat) -> nat
    decreases n,
{
    if n <= j + 1 {
        1
    } else {
        keep_numerator(j, (n - 1) as nat) * ((n - 1) as nat)
    }
}

/// Denominator of the same chance: `j + 1` for taking slot `j`, then
/// `k + 1` for each later slot `k`.
pub open spec fn keep_denominator(j: nat, n: nat) -> nat
    decreases n,
{
    if n <= j + 1 {
        j + 1
    } else {
        keep_denominator(j, (n - 1) as nat) * n
    }
}

/// The arithmetic of reservoir sampling's uniformity: the chance
/// `1 / (j + 1)` of taking slot `j`, times `k / (k + 1)` of keeping it past
/// each later slot `k < n`, is exactly `1 / n`. By
/// `lemma_pick_is_last_fixed_draw` these are the events that decide the
/// pick, when the draws are independent and uniform.
pub proof fn lemma_reservoir_uniform(j: nat, n: nat)
    requires
        j < n,
    ensures
        keep_numerator(j, n) * n == keep_denominator(j, n),
    decreases n,
{
    if n > j + 1 {
        lemma_reservoir_uniform(j, (n - 1) as nat);
        let m = (n - 1) as nat;
        let a = keep_numerator(j, m);
        let d = keep_denominator(j, m);
        assert(keep_numerator(j, n) == a * m);
        assert(keep_denominator(j, n) == d * n);
        assert((a * m) * n == d * n) by (nonlinear_arith)
            requires
                a * m == d,
        ;
        assert(keep_numerator(j, n) * n == (a * m) * n);
    } else {
        assert(keep_numerator(j, n) == 1);
        assert(keep_denominator(j, n) == j + 1);
        assert(n == j + 1);
    }
}

} // verus!
