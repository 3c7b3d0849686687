//! Adaptive mean threshold over a window scaled to the frame.
use vstd::prelude::*;

use crate::plane;

verus! {

/// How far below the local mean a pixel must be to count as dark.
pub const OFFSET: i32 = 7;

/// Sum of the pixels of row `y` in columns `x0..x1`.
pub open spec fn row_sum(gray: Seq<u8>, w: int, y: int, x0: int, x1: int) -> int
    decreases x1 - x0,
{
    if x1 <= x0 {
        0
    } else {
        row_sum(gray, w, y, x0, x1 - 1) + gray[plane::index_of(w, x1 - 1, y)]
    }
}

/// Sum of the pixels in columns `x0..x1` of rows `y0..y1`.
pub open spec fn box_sum(gray: Seq<u8>, w: int, x0: int, x1: int, y0: int, y1: int) -> int
    decreases y1 - y0,
{
    if y1 <= y0 {
        0
    } else {
        box_sum(gray, w, x0, x1, y0, y1 - 1) + row_sum(gray, w, y1 - 1, x0, x1)
    }
}

/// Half-size of the averaging window.
pub open spec fn window_radius(w: int, h: int) -> int {
    let twelfth = (if w < h { w } else { h }) / 12;
    if twelfth > 7 {
        twelfth
    } else {
        7
    }
}

/// First row or column of the window around `c`.
pub open spec fn window_start(c: int, radius: int) -> int {
    if c < radius {
        0
    } else {
        c - radius
    }
}

/// One past the last row or column of the window around `c`.
pub open spec fn window_end(c: int, radius: int, size: int) -> int {
    if c + radius + 1 < size {
        c + radius + 1
    } else {
        size
    }
}

/// Mean of the window around (x, y), rounded down.
pub open spec fn local_mean(gray: Seq<u8>, w: int, h: int, x: int, y: int) -> int {
    let radius = window_radius(w, h);
    let (x0, x1) = (window_start(x, radius), window_end(x, radius, w));
    let (y0, y1) = (window_start(y, radius), window_end(y, radius, h));
    box_sum(gray, w, x0, x1, y0, y1) / ((y1 - y0) * (x1 - x0))
}

/// Whether pixel (x, y) is darker than its surroundings.
pub open spec fn is_below_mean(gray: Seq<u8>, w: int, h: int, x: int, y: int) -> bool {
    gray[plane::index_of(w, x, y)] < local_mean(gray, w, h, x, y) - OFFSET
}

/// A frame small enough for its sums to be representable.
pub open spec fn fits(w: int, h: int) -> bool {
    &&& (w + 1) * (h + 1) <= usize::MAX
    &&& w * h * 510 <= u64::MAX
}

proof fn lemma_row_sum_splits(gray: Seq<u8>, w: int, y: int, x0: int, x1: int)
    requires
        0 <= x0 <= x1,
    ensures
        row_sum(gray, w, y, 0, x1) == row_sum(gray, w, y, 0, x0) + row_sum(gray, w, y, x0, x1),
    decreases x1 - x0,
{
    if x0 < x1 {
        lemma_row_sum_splits(gray, w, y, x0, x1 - 1);
    }
}

proof fn lemma_box_sum_splits_columns(gray: Seq<u8>, w: int, x0: int, x1: int, y0: int, y1: int)
    requires
        0 <= x0 <= x1,
    ensures
        box_sum(gray, w, 0, x1, y0, y1) == box_sum(gray, w, 0, x0, y0, y1) + box_sum(
            gray,
            w,
            x0,
            x1,
            y0,
            y1,
        ),
    decreases y1 - y0,
{
    if y0 < y1 {
        lemma_box_sum_splits_columns(gray, w, x0, x1, y0, y1 - 1);
        lemma_row_sum_splits(gray, w, y1 - 1, x0, x1);
    }
}

proof fn lemma_box_sum_splits_rows(gray: Seq<u8>, w: int, x0: int, x1: int, y0: int, y1: int)
    requires
        0 <= y0 <= y1,
    ensures
        box_sum(gray, w, x0, x1, 0, y1) == box_sum(gray, w, x0, x1, 0, y0) + box_sum(
            gray,
            w,
            x0,
            x1,
            y0,
            y1,
        ),
    decreases y1 - y0,
{
    if y0 < y1 {
        lemma_box_sum_splits_rows(gray, w, x0, x1, y0, y1 - 1);
    }
}

/// A box is recovered from four entries of the summed-area table.
proof fn lemma_box_from_table(gray: Seq<u8>, w: int, x0: int, x1: int, y0: int, y1: int)
    requires
        0 <= x0 <= x1,
        0 <= y0 <= y1,
    ensures
        box_sum(gray, w, x0, x1, y0, y1) == box_sum(gray, w, 0, x1, 0, y1) + box_sum(
            gray,
            w,
            0,
            x0,
            0,
            y0,
        ) - box_sum(gray, w, 0, x1, 0, y0) - box_sum(gray, w, 0, x0, 0, y1),
{
    lemma_box_sum_splits_columns(gray, w, x0, x1, 0, y1);
    lemma_box_sum_splits_columns(gray, w, x0, x1, 0, y0);
    lemma_box_sum_splits_rows(gray, w, x0, x1, y0, y1);
}

proof fn lemma_row_sum_bounds(gray: Seq<u8>, w: int, y: int, x0: int, x1: int)
    requires
        x0 <= x1,
    ensures
        0 <= row_sum(gray, w, y, x0, x1) <= 255 * (x1 - x0),
    decreases x1 - x0,
{
    if x0 < x1 {
        lemma_row_sum_bounds(gray, w, y, x0, x1 - 1);
    }
}

/// A box of `n` pixels sums to at most `255 n`.
pub proof fn lemma_box_sum_bounds(gray: Seq<u8>, w: int, x0: int, x1: int, y0: int, y1: int)
    requires
        x0 <= x1,
        y0 <= y1,
    ensures
        0 <= box_sum(gray, w, x0, x1, y0, y1) <= 255 * ((y1 - y0) * (x1 - x0)),
    decreases y1 - y0,
{
    if y0 < y1 {
        lemma_box_sum_bounds(gray, w, x0, x1, y0, y1 - 1);
        lemma_row_sum_bounds(gray, w, y1 - 1, x0, x1);
        assert((y1 - y0) * (x1 - x0) == (y1 - 1 - y0) * (x1 - x0) + (x1 - x0)) by (nonlinear_arith);
    } else {
        assert((y1 - y0) * (x1 - x0) == 0) by (nonlinear_arith)
            requires
                y1 - y0 == 0,
        ;
    }
}

/// Entries of a summed-area table of `w` x `h` pixels, rows `0..rows` filled.
spec fn is_table(table: Seq<u64>, gray: Seq<u8>, w: int, h: int, rows: int) -> bool {
    &&& table.len() == (w + 1) * (h + 1)
    &&& forall|x: int, y: int|
        #![trigger plane::index_of(w + 1, x, y)]
        0 <= x <= w && 0 <= y < rows ==> table[plane::index_of(w + 1, x, y)] == box_sum(
            gray,
            w,
            0,
            x,
            0,
            y,
        )
}

/// Indices in distinct places of a plane are distinct.
proof fn lemma_index_injective(w: int, x1: int, y1: int, x2: int, y2: int)
    requires
        0 <= x1 < w,
        0 <= x2 < w,
        0 <= y1,
        0 <= y2,
        plane::index_of(w, x1, y1) == plane::index_of(w, x2, y2),
    ensures
        x1 == x2,
        y1 == y2,
{
    plane::lemma_index_split(w, x1, y1);
    plane::lemma_index_split(w, x2, y2);
}

/// Summed-area table of a frame, (width+1) x (height+1) entries.
fn summed_area(gray: &[u8], width: usize, height: usize) -> (table: Vec<u64>)
    requires
        gray@.len() == width * height,
        fits(width as int, height as int),
    ensures
        is_table(table@, gray@, width as int, height as int, height + 1),
{
    let ghost w = width as int;
    let ghost h = height as int;
    proof {
        assert(w + 1 <= (w + 1) * (h + 1) && h + 1 <= (w + 1) * (h + 1)) by (nonlinear_arith)
            requires
                w >= 0,
                h >= 0,
        ;
    }
    let iw: usize = width + 1;
    let mut table: Vec<u64> = vec![0u64; iw * (height + 1)];
    let mut y: usize = 0;
    proof {
        assert forall|x: int, y: int|
            #![trigger plane::index_of(w + 1, x, y)]
            0 <= x <= w && 0 <= y < 1 implies table@[plane::index_of(w + 1, x, y)] == box_sum(
            gray@,
            w,
            0,
            x,
            0,
            y,
        ) by {
            plane::lemma_index_bounds(w + 1, h + 1, x, y);
        }
        assert forall|y2: int|
            #![trigger plane::index_of(w + 1, 0, y2)]
            0 <= y2 <= h implies table@[plane::index_of(w + 1, 0, y2)] == 0 by {
            plane::lemma_index_bounds(w + 1, h + 1, 0, y2);
        }
    }
    while y < height
        invariant
            w == width,
            h == height,
            iw == w + 1,
            y <= height,
            gray@.len() == width * height,
            fits(w, h),
            is_table(table@, gray@, w, h, y + 1),
            forall|y2: int|
                #![trigger plane::index_of(w + 1, 0, y2)]
                0 <= y2 <= h ==> table@[plane::index_of(w + 1, 0, y2)] == 0,
        decreases height - y,
    {
        let mut row: u64 = 0;
        let mut x: usize = 0;
        proof {
            assert forall|x2: int, y2: int|
                #![trigger plane::index_of(w + 1, x2, y2)]
                0 <= x2 <= 0
                    && y2 == y + 1 implies table@[plane::index_of(w + 1, x2, y2)] == box_sum(
                gray@,
                w,
                0,
                x2,
                0,
                y2,
            ) by {
                lemma_box_sum_bounds(gray@, w, 0, 0, 0, y2);
                assert((y2 - 0) * (0int - 0) == 0) by (nonlinear_arith);
            }
        }
        while x < width
            invariant
                w == width,
                h == height,
                iw == w + 1,
                y < height,
                x <= width,
                gray@.len() == width * height,
                fits(w, h),
                row == row_sum(gray@, w, y as int, 0, x as int),
                is_table(table@, gray@, w, h, y + 1),
                forall|x2: int|
                    #![trigger plane::index_of(w + 1, x2, y + 1)]
                    0 <= x2 <= x ==> table@[plane::index_of(w + 1, x2, y + 1)] == box_sum(
                        gray@,
                        w,
                        0,
                        x2,
                        0,
                        y + 1,
                    ),
                forall|y2: int|
                    #![trigger plane::index_of(w + 1, 0, y2)]
                    0 <= y2 <= h ==> table@[plane::index_of(w + 1, 0, y2)] == 0,
            decreases width - x,
        {
            let ghost before = table@;
            let ghost above = plane::index_of(w + 1, x + 1, y as int);
            let ghost here = plane::index_of(w + 1, x + 1, y + 1);
            proof {
                plane::lemma_index_bounds(w, h, x as int, y as int);
                plane::lemma_index_bounds(w + 1, h + 1, x + 1, y as int);
                plane::lemma_index_bounds(w + 1, h + 1, x + 1, y + 1);
                lemma_row_sum_bounds(gray@, w, y as int, 0, x + 1);
                lemma_box_sum_bounds(gray@, w, 0, x + 1, 0, y + 1);
                lemma_area_bound(w, h, x + 1, y + 1);
                assert((y + 1) * (w + 1) == y * (w + 1) + (w + 1)) by (nonlinear_arith);
                assert(gray@.len() == gray.len());
                assert(before[above] == box_sum(gray@, w, 0, x + 1, 0, y as int));
                assert(w <= w * h) by (nonlinear_arith)
                    requires
                        w >= 0,
                        h >= 1,
                ;
            }
            row = row + gray[y * width + x] as u64;
            let sum: u64 = table[y * iw + x + 1] + row;
            table.set((y + 1) * iw + x + 1, sum);
            proof {
                assert forall|x2: int, y2: int|
                    #![trigger plane::index_of(w + 1, x2, y2)]
                    0 <= x2 <= w && 0 <= y2 < y + 1 implies table@[plane::index_of(w + 1, x2, y2)]
                    == box_sum(gray@, w, 0, x2, 0, y2) by {
                    plane::lemma_index_bounds(w + 1, h + 1, x2, y2);
                    if plane::index_of(w + 1, x2, y2) == here {
                        lemma_index_injective(w + 1, x2, y2, x + 1, y + 1);
                    }
                    assert(before[plane::index_of(w + 1, x2, y2)]
                        == box_sum(gray@, w, 0, x2, 0, y2));
                }
                assert forall|x2: int|
                    #![trigger plane::index_of(w + 1, x2, y + 1)]
                    0 <= x2 <= x + 1 implies table@[plane::index_of(w + 1, x2, y + 1)] == box_sum(
                    gray@,
                    w,
                    0,
                    x2,
                    0,
                    y + 1,
                ) by {
                    plane::lemma_index_bounds(w + 1, h + 1, x2, y + 1);
                    if x2 <= x {
                        if plane::index_of(w + 1, x2, y + 1) == here {
                            lemma_index_injective(w + 1, x2, y + 1, x + 1, y + 1);
                        }
                        assert(before[plane::index_of(w + 1, x2, y + 1)] == box_sum(
                            gray@,
                            w,
                            0,
                            x2,
                            0,
                            y + 1,
                        ));
                    }
                }
                assert forall|y2: int|
                    #![trigger plane::index_of(w + 1, 0, y2)]
                    0 <= y2 <= h implies table@[plane::index_of(w + 1, 0, y2)] == 0 by {
                    plane::lemma_index_bounds(w + 1, h + 1, 0, y2);
                    if plane::index_of(w + 1, 0, y2) == here {
                        lemma_index_injective(w + 1, 0, y2, x + 1, y + 1);
                    }
                    assert(before[plane::index_of(w + 1, 0, y2)] == 0);
                }
            }
            x = x + 1;
        }
        y = y + 1;
    }
    table
}

/// A box inside the frame has no more pixels than the frame.
proof fn lemma_area_bound(w: int, h: int, x: int, y: int)
    requires
        0 <= x <= w,
        0 <= y <= h,
    ensures
        0 <= (y - 0) * (x - 0) <= w * h,
{
    assert(0 <= y * x <= w * h) by (nonlinear_arith)
        requires
            0 <= x <= w,
            0 <= y <= h,
    ;
}

/// Table lookups for one box.
fn box_total(
    table: &Vec<u64>,
    iw: usize,
    x0: usize,
    x1: usize,
    y0: usize,
    y1: usize,
    Ghost(gray): Ghost<Seq<u8>>,
    Ghost(h): Ghost<int>,
) -> (sum: u64)
    requires
        iw >= 1,
        h >= 0,
        fits(iw - 1, h),
        is_table(table@, gray, iw - 1, h, h + 1),
        x0 <= x1 < iw,
        y0 <= y1 <= h,
    ensures
        sum == box_sum(gray, iw - 1, x0 as int, x1 as int, y0 as int, y1 as int),
{
    let ghost w = iw - 1;
    proof {
        plane::lemma_index_bounds(w + 1, h + 1, x1 as int, y1 as int);
        plane::lemma_index_bounds(w + 1, h + 1, x0 as int, y0 as int);
        plane::lemma_index_bounds(w + 1, h + 1, x1 as int, y0 as int);
        plane::lemma_index_bounds(w + 1, h + 1, x0 as int, y1 as int);
        lemma_box_from_table(gray, w, x0 as int, x1 as int, y0 as int, y1 as int);
        lemma_box_sum_splits_columns(gray, w, x0 as int, x1 as int, 0, y0 as int);
        lemma_box_sum_bounds(gray, w, x0 as int, x1 as int, 0, y0 as int);
        lemma_box_sum_splits_columns(gray, w, x0 as int, x1 as int, 0, y1 as int);
        lemma_box_sum_bounds(gray, w, x0 as int, x1 as int, 0, y1 as int);
        lemma_box_sum_bounds(gray, w, 0, x1 as int, 0, y1 as int);
        lemma_box_sum_bounds(gray, w, 0, x0 as int, 0, y0 as int);
        lemma_box_sum_bounds(gray, w, 0, x1 as int, 0, y0 as int);
        lemma_box_sum_splits_rows(gray, w, 0, x1 as int, y0 as int, y1 as int);
        lemma_box_sum_bounds(gray, w, 0, x1 as int, y0 as int, y1 as int);
        lemma_box_sum_bounds(gray, w, x0 as int, x1 as int, y0 as int, y1 as int);
        lemma_area_bound(w, h, x1 as int, y1 as int);
        lemma_area_bound(w, h, x0 as int, y0 as int);
        assert(table@[plane::index_of(w + 1, x1 as int, y1 as int)]
            == box_sum(gray, w, 0, x1 as int, 0, y1 as int));
        assert(table@[plane::index_of(w + 1, x0 as int, y0 as int)]
            == box_sum(gray, w, 0, x0 as int, 0, y0 as int));
        assert(table@[plane::index_of(w + 1, x1 as int, y0 as int)]
            == box_sum(gray, w, 0, x1 as int, 0, y0 as int));
        assert(table@[plane::index_of(w + 1, x0 as int, y1 as int)]
            == box_sum(gray, w, 0, x0 as int, 0, y1 as int));
    }
    table[y1 * iw + x1] + table[y0 * iw + x0] - table[y0 * iw + x1] - table[y1 * iw + x0]
}

/// Adaptive mean threshold: a pixel is "dark" (1) when it is more than
/// [`OFFSET`] below the mean of its window. Robust to the uneven lighting of a
/// hand-held phone shot of a wall.
pub fn adaptive_threshold(gray: &[u8], width: usize, height: usize) -> (mask: Vec<u8>)
    requires
        gray@.len() == width * height,
        fits(width as int, height as int),
    ensures
        mask@.len() == width * height,
        forall|x: int, y: int|
            #![trigger mask@[plane::index_of(width as int, x, y)]]
            plane::in_plane(width as int, height as int, x, y) ==> mask@[plane::index_of(
                width as int,
                x,
                y,
            )] == (if is_below_mean(gray@, width as int, height as int, x, y) {
                1u8
            } else {
                0u8
            }),
        forall|p: int| 0 <= p < mask@.len() ==> #[trigger] mask@[p] <= 1,
{
    let ghost w = width as int;
    let ghost h = height as int;
    let table: Vec<u64> = summed_area(gray, width, height);
    let total: usize = gray.len();
    let mut mask: Vec<u8> = vec![0u8; total];
    if width == 0 || height == 0 {
        proof {
            assert(w * h == 0) by (nonlinear_arith)
                requires
                    w == 0 || h == 0,
            ;
        }
        return mask;
    }
    proof {
        assert(2 * (h + 1) <= (w + 1) * (h + 1)
            && 2 * (w + 1) <= (w + 1) * (h + 1)) by (nonlinear_arith)
            requires
                w >= 1,
                h >= 1,
        ;
    }
    let iw: usize = width + 1;
    let smaller: usize = if width < height {
        width
    } else {
        height
    };
    let radius: usize = if smaller / 12 > 7 {
        smaller / 12
    } else {
        7
    };
    let mut y: usize = 0;
    proof {
        assert forall|x2: int, y2: int|
            #![trigger mask@[plane::index_of(w, x2, y2)]]
            0 <= x2 < w && 0 <= y2 < h implies mask@[plane::index_of(w, x2, y2)] == 0 by {
            plane::lemma_index_bounds(w, h, x2, y2);
        }
    }
    while y < height
        invariant
            w == width,
            h == height,
            w >= 1,
            2 * (h + 1) <= usize::MAX,
            2 * (w + 1) <= usize::MAX,
            radius <= w / 12 || radius == 7,
            radius <= h / 12 || radius == 7,
            iw == w + 1,
            radius == window_radius(w, h),
            y <= height,
            gray@.len() == width * height,
            fits(w, h),
            is_table(table@, gray@, w, h, h + 1),
            mask@.len() == gray@.len(),
            forall|p: int| 0 <= p < mask@.len() ==> #[trigger] mask@[p] <= 1,
            forall|x2: int, y2: int|
                #![trigger mask@[plane::index_of(w, x2, y2)]]
                0 <= x2 < w && 0 <= y2 < y ==> mask@[plane::index_of(w, x2, y2)] == (
                if is_below_mean(gray@, w, h, x2, y2) {
                    1u8
                } else {
                    0u8
                }),
            forall|x2: int, y2: int|
                #![trigger mask@[plane::index_of(w, x2, y2)]]
                0 <= x2 < w && y <= y2 < h ==> mask@[plane::index_of(w, x2, y2)] == 0,
        decreases height - y,
    {
        let y0: usize = if y < radius {
            0
        } else {
            y - radius
        };
        let y1: usize = if y + radius + 1 < height {
            y + radius + 1
        } else {
            height
        };
        let mut x: usize = 0;
        while x < width
            invariant
                w == width,
                h == height,
                2 * (w + 1) <= usize::MAX,
                radius <= w / 12 || radius == 7,
                iw == w + 1,
                radius == window_radius(w, h),
                y < height,
                y0 == window_start(y as int, radius as int),
                y1 == window_end(y as int, radius as int, h),
                x <= width,
                gray@.len() == width * height,
                fits(w, h),
                is_table(table@, gray@, w, h, h + 1),
                mask@.len() == gray@.len(),
                forall|p: int| 0 <= p < mask@.len() ==> #[trigger] mask@[p] <= 1,
                forall|x2: int, y2: int|
                    #![trigger mask@[plane::index_of(w, x2, y2)]]
                    0 <= x2 < w && 0 <= y2 < h && (y2 < y || (y2 == y && x2 < x))
                        ==> mask@[plane::index_of(
                        w,
                        x2,
                        y2,
                    )] == (if is_below_mean(gray@, w, h, x2, y2) {
                        1u8
                    } else {
                        0u8
                    }),
                forall|x2: int, y2: int|
                    #![trigger mask@[plane::index_of(w, x2, y2)]]
                    0 <= x2 < w && y <= y2 < h && (y < y2 || x <= x2) ==> mask@[plane::index_of(
                        w,
                        x2,
                        y2,
                    )] == 0,
            decreases width - x,
        {
            let x0: usize = if x < radius {
                0
            } else {
                x - radius
            };
            let x1: usize = if x + radius + 1 < width {
                x + radius + 1
            } else {
                width
            };
            let sum: u64 = box_total(&table, iw, x0, x1, y0, y1, Ghost(gray@), Ghost(h));
            let ghost area = (y1 - y0) * (x1 - x0);
            proof {
                plane::lemma_index_bounds(w, h, x as int, y as int);
                assert(gray@.len() == gray.len());
                lemma_box_sum_bounds(gray@, w, x0 as int, x1 as int, y0 as int, y1 as int);
                assert(1 <= area <= w * h) by (nonlinear_arith)
                    requires
                        area == (y1 - y0) * (x1 - x0),
                        1 <= y1 - y0 <= h,
                        1 <= x1 - x0 <= w,
                ;
                assert(w * h <= w * h * 510) by (nonlinear_arith)
                    requires
                        w * h >= 0,
                ;
            }
            let count: u64 = ((y1 - y0) * (x1 - x0)) as u64;
            proof {
                assert(sum as int / count as int <= 255) by (nonlinear_arith)
                    requires
                        0 <= sum <= 255 * count,
                        count >= 1,
                ;
            }
            let mean: i32 = (sum / count) as i32;
            let ghost before = mask@;
            let ghost here = plane::index_of(w, x as int, y as int);
            if (gray[y * width + x] as i32) < mean - OFFSET {
                mask.set(y * width + x, 1);
            }
            proof {
                assert forall|x2: int, y2: int|
                    #![trigger mask@[plane::index_of(w, x2, y2)]]
                    0 <= x2 < w && 0 <= y2 < h && (x2 != x
                        || y2 != y) implies mask@[plane::index_of(w, x2, y2)]
                    == before[plane::index_of(w, x2, y2)] by {
                    plane::lemma_index_bounds(w, h, x2, y2);
                    if plane::index_of(w, x2, y2) == here {
                        lemma_index_injective(w, x2, y2, x as int, y as int);
                    }
                }
                assert(before[here] == 0);
            }
            x = x + 1;
        }
        y = y + 1;
    }
    mask
}

/// `b` is `a` with a constant added to every pixel.
pub open spec fn is_shifted(a: Seq<u8>, b: Seq<u8>, by: int) -> bool {
    &&& a.len() == b.len()
    &&& forall|i: int| 0 <= i < a.len() ==> #[trigger] b[i] == a[i] + by
}

proof fn lemma_shifted_row(a: Seq<u8>, b: Seq<u8>, by: int, w: int, h: int, y: int, x0: int, x1: int)
    requires
        is_shifted(a, b, by),
        a.len() == w * h,
        0 <= y < h,
        0 <= x0 <= x1 <= w,
    ensures
        row_sum(b, w, y, x0, x1) == row_sum(a, w, y, x0, x1) + by * (x1 - x0),
    decreases x1 - x0,
{
    if x0 < x1 {
        lemma_shifted_row(a, b, by, w, h, y, x0, x1 - 1);
        plane::lemma_index_bounds(w, h, x1 - 1, y);
        assert(by * (x1 - x0) == by * (x1 - 1 - x0) + by) by (nonlinear_arith);
    } else {
        assert(by * (x1 - x0) == 0) by (nonlinear_arith)
            requires
                x1 == x0,
        ;
    }
}

proof fn lemma_shifted_box(
    a: Seq<u8>,
    b: Seq<u8>,
    by: int,
    w: int,
    h: int,
    x0: int,
    x1: int,
    y0: int,
    y1: int,
)
    requires
        is_shifted(a, b, by),
        a.len() == w * h,
        0 <= x0 <= x1 <= w,
        0 <= y0 <= y1 <= h,
    ensures
        box_sum(b, w, x0, x1, y0, y1) == box_sum(a, w, x0, x1, y0, y1) + by * ((y1 - y0) * (x1
            - x0)),
    decreases y1 - y0,
{
    if y0 < y1 {
        lemma_shifted_box(a, b, by, w, h, x0, x1, y0, y1 - 1);
        lemma_shifted_row(a, b, by, w, h, y1 - 1, x0, x1);
        assert(by * ((y1 - y0) * (x1 - x0)) == by * ((y1 - 1 - y0) * (x1 - x0)) + by * (x1 - x0))
            by (nonlinear_arith);
    } else {
        assert(by * ((y1 - y0) * (x1 - x0)) == 0) by (nonlinear_arith)
            requires
                y1 == y0,
        ;
    }
}

proof fn lemma_shifted_mean(
    a: Seq<u8>,
    b: Seq<u8>,
    by: int,
    w: int,
    h: int,
    x: int,
    y: int,
)
    requires
        is_shifted(a, b, by),
        a.len() == w * h,
        0 <= x < w,
        0 <= y < h,
    ensures
        local_mean(b, w, h, x, y) == local_mean(a, w, h, x, y) + by,
{
    let radius = window_radius(w, h);
    let (x0, x1) = (window_start(x, radius), window_end(x, radius, w));
    let (y0, y1) = (window_start(y, radius), window_end(y, radius, h));
    let area = (y1 - y0) * (x1 - x0);
    let sum = box_sum(a, w, x0, x1, y0, y1);
    lemma_shifted_box(a, b, by, w, h, x0, x1, y0, y1);
    assert(area > 0) by (nonlinear_arith)
        requires
            area == (y1 - y0) * (x1 - x0),
            y1 - y0 > 0,
            x1 - x0 > 0,
    ;
    vstd::arithmetic::div_mod::lemma_hoist_over_denominator(sum, by, area as nat);
}

/// The mask does not change when the whole frame gets lighter or darker by the same
/// amount, as long as no pixel leaves the range of a byte.
pub proof fn law_mask_ignores_brightness(
    a: Seq<u8>,
    b: Seq<u8>,
    by: int,
    w: int,
    h: int,
    x: int,
    y: int,
)
    requires
        is_shifted(a, b, by),
        a.len() == w * h,
        0 <= x < w,
        0 <= y < h,
    ensures
        is_below_mean(b, w, h, x, y) == is_below_mean(a, w, h, x, y),
{
    lemma_shifted_mean(a, b, by, w, h, x, y);
    plane::lemma_index_bounds(w, h, x, y);
}

/// A frame of one brightness shows nothing dark.
pub proof fn law_uniform_plane_has_no_dark_pixel(
    gray: Seq<u8>,
    v: u8,
    w: int,
    h: int,
    x: int,
    y: int,
)
    requires
        gray.len() == w * h,
        forall|i: int| 0 <= i < gray.len() ==> #[trigger] gray[i] == v,
        0 <= x < w,
        0 <= y < h,
    ensures
        !is_below_mean(gray, w, h, x, y),
{
    let black = Seq::new(gray.len(), |i: int| 0u8);
    assert(is_shifted(black, gray, v as int));
    lemma_shifted_mean(black, gray, v as int, w, h, x, y);
    lemma_shifted_mean(black, black, 0, w, h, x, y);
    plane::lemma_index_bounds(w, h, x, y);
    let radius = window_radius(w, h);
    let (x0, x1) = (window_start(x, radius), window_end(x, radius, w));
    let (y0, y1) = (window_start(y, radius), window_end(y, radius, h));
    assert((y1 - y0) * (x1 - x0) > 0) by (nonlinear_arith)
        requires
            y1 - y0 > 0,
            x1 - x0 > 0,
    ;
    lemma_black_box(black, w, h, x0, x1, y0, y1);
}

proof fn lemma_black_row(gray: Seq<u8>, w: int, h: int, y: int, x0: int, x1: int)
    requires
        gray.len() == w * h,
        forall|i: int| 0 <= i < gray.len() ==> #[trigger] gray[i] == 0,
        0 <= y < h,
        0 <= x0 <= x1 <= w,
    ensures
        row_sum(gray, w, y, x0, x1) == 0,
    decreases x1 - x0,
{
    if x0 < x1 {
        lemma_black_row(gray, w, h, y, x0, x1 - 1);
        plane::lemma_index_bounds(w, h, x1 - 1, y);
    }
}

proof fn lemma_black_box(gray: Seq<u8>, w: int, h: int, x0: int, x1: int, y0: int, y1: int)
    requires
        gray.len() == w * h,
        forall|i: int| 0 <= i < gray.len() ==> #[trigger] gray[i] == 0,
        0 <= x0 <= x1 <= w,
        0 <= y0 <= y1 <= h,
        (y1 - y0) * (x1 - x0) > 0,
    ensures
        box_sum(gray, w, x0, x1, y0, y1) / ((y1 - y0) * (x1 - x0)) == 0,
{
    lemma_black_rows(gray, w, h, x0, x1, y0, y1);
    vstd::arithmetic::div_mod::lemma_div_of0((y1 - y0) * (x1 - x0));
}

proof fn lemma_black_rows(gray: Seq<u8>, w: int, h: int, x0: int, x1: int, y0: int, y1: int)
    requires
        gray.len() == w * h,
        forall|i: int| 0 <= i < gray.len() ==> #[trigger] gray[i] == 0,
        0 <= x0 <= x1 <= w,
        0 <= y0 <= y1 <= h,
    ensures
        box_sum(gray, w, x0, x1, y0, y1) == 0,
    decreases y1 - y0,
{
    if y0 < y1 {
        lemma_black_rows(gray, w, h, x0, x1, y0, y1 - 1);
        lemma_black_row(gray, w, h, y1 - 1, x0, x1);
    }
}

} // verus!
