//! Helpers over a gray canvas held as row-major bytes: zero marks a free
//! pixel, anything else an occupied one.
use vstd::prelude::*;
use crate::sat::{cell, is_summed_area_table, prefix, rebuilt, row_sum, rows_of, slot_open, in_skip_range, Region};
use crate::sat::{lemma_region_test_exact, lemma_rebuild_after_stamp, to_summed_area_table};

verus! {

/// Pixel `(x, y)` of a canvas of width `w` is free.
pub open spec fn is_free(p: Seq<u8>, w: int, y: int, x: int) -> bool {
    p[y * w + x] == 0
}

/// Row `y` has a free pixel.
pub open spec fn row_has_free(p: Seq<u8>, w: int, y: int) -> bool {
    exists|x: int| 0 <= x < w && #[trigger] is_free(p, w, y, x)
}

/// `e` is the skip-list entry of row `y`: the first and the last free
/// column of the row, or `(0, w)` for a row with no free pixel.
pub open spec fn is_skip_entry(p: Seq<u8>, w: int, y: int, e: (usize, usize)) -> bool {
    if row_has_free(p, w, y) {
        &&& e.0 < w
        &&& e.1 < w
        &&& is_free(p, w, y, e.0 as int)
        &&& is_free(p, w, y, e.1 as int)
        &&& forall|x: int| 0 <= x < e.0 ==> !#[trigger] is_free(p, w, y, x)
        &&& forall|x: int| e.1 < x < w ==> !#[trigger] is_free(p, w, y, x)
    } else {
        e.0 == 0 && e.1 == w
    }
}

proof fn lemma_pixel_index(w: int, y: int, x: int, rows: int)
    requires
        w > 0,
        0 <= y < rows,
        0 <= x < w,
    ensures
        0 <= y * w + x < rows * w,
{
    assert(0 <= y * w + x < rows * w) by (nonlinear_arith)
        requires
            w > 0,
            0 <= y < rows,
            0 <= x < w,
    ;
}

/// For each row of the canvas, the first and the last free column; a row
/// with no free pixel gets `(0, width)`, which leaves the whole row to scan.
pub fn create_mask_skip_list(pixels: &[u8], width: usize) -> (r: Vec<(usize, usize)>)
    requires
        width > 0,
    ensures
        r@.len() == rows_of(pixels@.len() as int, width as int),
        forall|y: int| 0 <= y < r@.len() ==> is_skip_entry(pixels@, width as int, y, #[trigger] r@[y]),
{
    let n = pixels.len();
    let rows = n / width;
    let ghost w = width as int;
    let mut r: Vec<(usize, usize)> = Vec::new();
    let mut y: usize = 0;
    proof {
        vstd::arithmetic::div_mod::lemma_fundamental_div_mod(n as int, w);
        vstd::arithmetic::div_mod::lemma_mod_pos_bound(n as int, w);
        vstd::arithmetic::mul::lemma_mul_is_commutative(n as int / w, w);
    }
    while y < rows
        invariant
            n == pixels@.len(),
            rows == rows_of(n as int, w),
            rows * w <= n,
            w == width,
            width > 0,
            y <= rows,
            r@.len() == y,
            forall|yy: int| 0 <= yy < y ==> is_skip_entry(pixels@, w, yy, #[trigger] r@[yy]),
        decreases rows - y,
    {
        let mut first: usize = width;
        let mut last: usize = width;
        let mut x: usize = 0;
        while x < width
            invariant
                n == pixels@.len(),
                rows * w <= n,
                w == width,
                y < rows,
                x <= width,
                first <= width,
                last <= width,
                first == width ==> forall|xx: int| 0 <= xx < x ==> !#[trigger] is_free(pixels@, w, y as int, xx),
                first < width ==> first < x && is_free(pixels@, w, y as int, first as int)
                    && forall|xx: int| 0 <= xx < first ==> !#[trigger] is_free(pixels@, w, y as int, xx),
                (first == width) == (last == width),
                last < width ==> last < x && is_free(pixels@, w, y as int, last as int)
                    && forall|xx: int| last < xx < x ==> !#[trigger] is_free(pixels@, w, y as int, xx),
            decreases width - x,
        {
            proof {
                lemma_pixel_index(w, y as int, x as int, rows as int);
            }
            if pixels[y * width + x] == 0 {
                if first == width {
                    first = x;
                }
                last = x;
            }
            x += 1;
        }
        let ghost before = r@;
        if first == width {
            assert(!row_has_free(pixels@, w, y as int));
            r.push((0, width));
        } else {
            assert(is_free(pixels@, w, y as int, first as int));
            assert(row_has_free(pixels@, w, y as int));
            r.push((first, last));
        }
        assert(is_skip_entry(pixels@, w, y as int, r@[y as int]));
        assert forall|yy: int| 0 <= yy < y + 1 implies is_skip_entry(pixels@, w, yy, #[trigger] r@[yy]) by {
            if yy < y {
                assert(r@[yy] == before[yy]);
            }
        }
        y += 1;
    }
    r
}

/// A sound skip list keeps every open slot. On a grid whose cells are
/// occupied wherever the mask is, a non-degenerate region that the
/// summed-area table finds empty starts in a column that the skip-list
/// entry of its top row lets the masked search scan.
pub proof fn lemma_skip_list_keeps_open_slots(
    mask: Seq<u8>,
    skip: Seq<(usize, usize)>,
    g: Seq<u32>,
    t: Seq<u32>,
    w: int,
    h: int,
    rw: int,
    rh: int,
    x: int,
    y: int,
)
    requires
        w > 0,
        h == rows_of(g.len() as int, w),
        mask.len() == g.len(),
        is_summed_area_table(t, g, w),
        skip.len() == h,
        forall|yy: int| 0 <= yy < h ==> is_skip_entry(mask, w, yy, #[trigger] skip[yy]),
        forall|yy: int, xx: int| 0 <= yy < h && 0 <= xx < w && !is_free(mask, w, yy, xx) ==> #[trigger] cell(g, w, yy, xx) != 0,
        rw >= 1,
        rh >= 1,
        slot_open(t, w, h, rw, rh, x, y),
    ensures
        in_skip_range(skip, y, x),
{
    lemma_region_test_exact(t, g, w, x, y, rw, rh);
    assert(cell(g, w, y, x) == 0);
    assert(is_free(mask, w, y, x));
    assert(row_has_free(mask, w, y));
}

/// Copies each byte of `buffer` into the same place of `dst` as a `u32`.
pub fn u8_to_u32_vec(buffer: &[u8], dst: &mut [u32])
    requires
        old(dst)@.len() >= buffer@.len(),
    ensures
        final(dst)@.len() == old(dst)@.len(),
        forall|i: int| 0 <= i < buffer@.len() ==> final(dst)@[i] == buffer@[i] as u32,
        forall|i: int| buffer@.len() <= i < old(dst)@.len() ==> final(dst)@[i] == old(dst)@[i],
{
    let n = buffer.len();
    let mut i: usize = 0;
    while i < n
        invariant
            n == buffer@.len(),
            dst@.len() == old(dst)@.len(),
            n <= dst@.len(),
            i <= n,
            forall|k: int| 0 <= k < i ==> dst@[k] == buffer@[k] as u32,
            forall|k: int| i <= k < dst@.len() ==> dst@[k] == old(dst)@[k],
        decreases n - i,
    {
        dst[i] = buffer[i] as u32;
        i += 1;
    }
}

/// A byte grid read as `u32` cells.
pub open spec fn widen(p: Seq<u8>) -> Seq<u32> {
    p.map_values(|b: u8| b as u32)
}

proof fn lemma_row_sum_mono(g: Seq<u32>, w: int, i: int, j1: int, j2: int)
    requires
        0 <= j1 <= j2,
    ensures
        0 <= row_sum(g, w, i, j1) <= row_sum(g, w, i, j2),
    decreases j2,
{
    if j2 > j1 {
        lemma_row_sum_mono(g, w, i, j1, j2 - 1);
    } else if j1 > 0 {
        lemma_row_sum_mono(g, w, i, 0, j1 - 1);
    }
}

proof fn lemma_prefix_mono(g: Seq<u32>, w: int, i1: int, i2: int, j1: int, j2: int)
    requires
        0 <= i1 <= i2,
        0 <= j1 <= j2,
    ensures
        0 <= prefix(g, w, i1, j1) <= prefix(g, w, i2, j2),
    decreases i2,
{
    if i2 > i1 {
        lemma_prefix_mono(g, w, i1, i2 - 1, j1, j2);
        lemma_row_sum_mono(g, w, i2 - 1, 0, j2);
    } else if i1 > 0 {
        lemma_prefix_mono(g, w, i1 - 1, i2 - 1, j1, j2);
        lemma_row_sum_mono(g, w, i1 - 1, j1, j2);
    }
}

/// Brings the table up to date with the grid after cells in rows
/// `start_row` and below changed: those rows are copied from the grid and
/// rebuilt, seeded by the row above, which is already up to date.
pub fn rebuild_from(table: &mut [u32], grid: &[u8], width: usize, start_row: usize)
    requires
        width > 0,
        old(table)@.len() == grid@.len(),
        grid@.len() as int % width as int == 0,
        prefix(widen(grid@), width as int, rows_of(grid@.len() as int, width as int), width as int) <= u32::MAX,
        forall|r: int, j: int|
            0 <= r < start_row && r < rows_of(grid@.len() as int, width as int) && 0 <= j < width
                ==> #[trigger] cell(old(table)@, width as int, r, j) == prefix(widen(grid@), width as int, r + 1, j + 1),
    ensures
        is_summed_area_table(final(table)@, widen(grid@), width as int),
{
    let n = grid.len();
    let rows = n / width;
    let ghost w = width as int;
    let ghost g = widen(grid@);
    let s: usize = if start_row < rows { start_row } else { rows };
    proof {
        vstd::arithmetic::div_mod::lemma_fundamental_div_mod(n as int, w);
        vstd::arithmetic::mul::lemma_mul_is_commutative(n as int / w, w);
        assert(s * w <= n) by (nonlinear_arith)
            requires
                s <= rows,
                rows * w == n,
                w > 0,
        ;
    }
    let mut k: usize = s * width;
    while k < n
        invariant
            n == grid@.len(),
            table@.len() == n,
            s * width <= k <= n,
            forall|i: int| s * width <= i < k ==> table@[i] == grid@[i] as u32,
            forall|i: int| 0 <= i < s * width ==> table@[i] == old(table)@[i],
        decreases n - k,
    {
        table[k] = grid[k] as u32;
        k += 1;
    }
    let ghost t = table@;
    proof {
        assert forall|r: int, jj: int| 0 <= r < s && 0 <= jj < w implies #[trigger] cell(t, w, r, jj)
            == prefix(g, w, r + 1, jj + 1) by {
            assert(0 <= r * w + jj < s * w) by (nonlinear_arith)
                requires
                    0 <= r < s,
                    0 <= jj < w,
            ;
            assert(cell(old(table)@, w, r, jj) == prefix(g, w, r + 1, jj + 1));
        }
        assert forall|r: int, jj: int| s <= r < rows && 0 <= jj < w implies #[trigger] cell(t, w, r, jj)
            == cell(g, w, r, jj) by {
            assert(s * w <= r * w + jj < rows * w) by (nonlinear_arith)
                requires
                    s <= r < rows,
                    0 <= jj < w,
                    w > 0,
            ;
        }
        lemma_rebuild_after_stamp(g, g, t, w, rows as int, s as int);
        assert forall|i: int, j: int|
            s <= i < rows_of(t.len() as int, w) && 0 <= j < width implies #[trigger] rebuilt(t, w, s as int, i, j)
            <= u32::MAX by {
            crate::sat::lemma_build_is_summed_area_table(g, w, i, j);
            lemma_prefix_mono(g, w, i + 1, rows as int, j + 1, w);
        }
    }
    to_summed_area_table(table, width, s);
    proof {
        assert forall|i: int, j: int| 0 <= i < rows_of(g.len() as int, w) && 0 <= j < w implies #[trigger] table@[i * w + j] as int
            == prefix(g, w, i + 1, j + 1) by {
            assert(cell(table@, w, i, j) == rebuilt(t, w, s as int, i, j));
            crate::sat::lemma_build_is_summed_area_table(g, w, i, j);
        }
    }
}

/// The summed-area table of a grid, built from scratch.
pub fn build_table(grid: &[u8], width: usize) -> (r: Vec<u32>)
    requires
        width > 0,
        grid@.len() as int % width as int == 0,
        prefix(widen(grid@), width as int, rows_of(grid@.len() as int, width as int), width as int) <= u32::MAX,
    ensures
        is_summed_area_table(r@, widen(grid@), width as int),
{
    let mut table: Vec<u32> = Vec::new();
    let mut i: usize = 0;
    while i < grid.len()
        invariant
            i <= grid@.len(),
            table@.len() == i,
        decreases grid@.len() - i,
    {
        table.push(0);
        i += 1;
    }
    rebuild_from(table.as_mut_slice(), grid, width, 0);
    table
}

/// The smallest region holding every free pixel: its top row and left
/// column are the first with a free pixel, and it spans to the last row and
/// the last column with one.
pub fn find_image_bounds(pixels: &[u8], width: u32) -> (r: Region)
    requires
        width > 0,
        rows_of(pixels@.len() as int, width as int) <= u32::MAX,
        exists|y: int| 0 <= y < rows_of(pixels@.len() as int, width as int) && #[trigger] row_has_free(pixels@, width as int, y),
    ensures
        ({
            let w = width as int;
            let rows = rows_of(pixels@.len() as int, w);
            &&& row_has_free(pixels@, w, r.y as int)
            &&& forall|y: int| 0 <= y < r.y ==> !#[trigger] row_has_free(pixels@, w, y)
            &&& r.y + r.height < rows
            &&& row_has_free(pixels@, w, r.y + r.height)
            &&& forall|y: int| r.y + r.height < y < rows ==> !#[trigger] row_has_free(pixels@, w, y)
            &&& forall|y: int, x: int| 0 <= y < rows && 0 <= x < w && #[trigger] is_free(pixels@, w, y, x) ==> r.x <= x <= r.x + r.width
            &&& exists|y: int| 0 <= y < rows && #[trigger] is_free(pixels@, w, y, r.x as int)
            &&& exists|y: int| 0 <= y < rows && #[trigger] is_free(pixels@, w, y, r.x + r.width)
        }),
{
    let ghost w = width as int;
    let ghost p = pixels@;
    let skip = create_mask_skip_list(pixels, width as usize);
    let rows = skip.len();
    let mut min_x: usize = width as usize;
    let mut max_x: usize = 0;
    let mut min_y: usize = 0;
    let mut max_y: usize = 0;
    let mut found = false;
    let mut y: usize = 0;
    while y < rows
        invariant
            w == width,
            w > 0,
            p == pixels@,
            rows == skip@.len(),
            rows == rows_of(p.len() as int, w),
            rows <= u32::MAX,
            forall|yy: int| 0 <= yy < rows ==> is_skip_entry(p, w, yy, #[trigger] skip@[yy]),
            y <= rows,
            !found ==> forall|yy: int| 0 <= yy < y ==> !#[trigger] row_has_free(p, w, yy),
            found ==> {
                &&& min_y <= max_y < y
                &&& min_x <= max_x < w
                &&& row_has_free(p, w, min_y as int)
                &&& row_has_free(p, w, max_y as int)
                &&& forall|yy: int| 0 <= yy < min_y ==> !#[trigger] row_has_free(p, w, yy)
                &&& forall|yy: int| max_y < yy < y ==> !#[trigger] row_has_free(p, w, yy)
                &&& forall|yy: int, x: int| 0 <= yy < y && 0 <= x < w && #[trigger] is_free(p, w, yy, x) ==> min_x <= x <= max_x
                &&& exists|yy: int| 0 <= yy < rows && #[trigger] is_free(p, w, yy, min_x as int)
                &&& exists|yy: int| 0 <= yy < rows && #[trigger] is_free(p, w, yy, max_x as int)
            },
        decreases rows - y,
    {
        let (first, last) = skip[y];
        let ghost (min_x0, max_x0, found0) = (min_x, max_x, found);
        proof {
            assert(is_skip_entry(p, w, y as int, skip@[y as int]));
        }
        if last < width as usize {
            assert(row_has_free(p, w, y as int));
            if !found {
                min_y = y;
                found = true;
                min_x = first;
                max_x = last;
            } else {
                if first < min_x {
                    min_x = first;
                }
                if last > max_x {
                    max_x = last;
                }
            }
            max_y = y;
            proof {
                assert(is_free(p, w, y as int, first as int));
                assert(is_free(p, w, y as int, last as int));
                assert forall|yy: int, x: int| 0 <= yy < y + 1 && 0 <= x < w && #[trigger] is_free(p, w, yy, x) implies min_x <= x <= max_x by {
                    if yy < y {
                        if !found0 {
                            assert(!row_has_free(p, w, yy));
                        }
                    }
                }
                if min_x == first {
                    assert(is_free(p, w, y as int, min_x as int));
                } else {
                    let yy = choose|yy: int| 0 <= yy < rows && #[trigger] is_free(p, w, yy, min_x0 as int);
                    assert(is_free(p, w, yy, min_x as int));
                }
                if max_x == last {
                    assert(is_free(p, w, y as int, max_x as int));
                } else {
                    let yy = choose|yy: int| 0 <= yy < rows && #[trigger] is_free(p, w, yy, max_x0 as int);
                    assert(is_free(p, w, yy, max_x as int));
                }
            }
        } else {
            assert(!row_has_free(p, w, y as int));
            proof {
                assert forall|x: int| 0 <= x < w implies !#[trigger] is_free(p, w, y as int, x) by {
                    if is_free(p, w, y as int, x) {
                        assert(row_has_free(p, w, y as int));
                    }
                }
            }
        }
        y += 1;
    }
    proof {
        let yy = choose|yy: int| 0 <= yy < rows_of(pixels@.len() as int, width as int) && #[trigger] row_has_free(pixels@, width as int, yy);
        assert(found);
    }
    let r = Region { x: min_x as u32, y: min_y as u32, width: (max_x - min_x) as u32, height: (max_y - min_y) as u32 };
    assert(r.x + r.width == max_x);
    assert(r.y + r.height == max_y);
    assert(row_has_free(pixels@, w, r.y as int));
    assert(row_has_free(pixels@, w, r.y + r.height));
    assert(exists|yy: int| 0 <= yy < rows && #[trigger] is_free(pixels@, w, yy, r.x as int));
    assert(exists|yy: int| 0 <= yy < rows && #[trigger] is_free(pixels@, w, yy, r.x + r.width));
    r
}


} // verus!
