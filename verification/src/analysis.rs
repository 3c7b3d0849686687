//! What capture computes of every frame: luma plane, 1/8-scale thumbnail and
//! sharpness score.
use vstd::prelude::*;

use crate::coach::Thumb;
use crate::double;
use crate::double::Double;
use crate::frame;
use crate::frame::grayscale;
use crate::plane;
use crate::threshold;

verus! {

/// Thumbnail downscale factor for the capture-time overlap estimate.
pub const THUMB_DIV: usize = 8;

/// Thumbnail side for a frame side.
pub open spec fn thumb_side(side: int) -> int {
    if side / 8 > 1 {
        side / 8
    } else {
        1
    }
}

/// Luma sum of block (tx, ty) of a frame divided into `tw` x `th` blocks.
pub open spec fn block_sum(
    gray: Seq<u8>,
    w: int,
    h: int,
    tw: int,
    th: int,
    tx: int,
    ty: int,
) -> int {
    let (bx, by) = (w / tw, h / th);
    threshold::box_sum(gray, w, tx * bx, tx * bx + bx, ty * by, ty * by + by)
}

/// `thumb` is the `tw` x `th` box downscale of a luma plane.
pub open spec fn is_downscaled(
    thumb: Thumb,
    gray: Seq<u8>,
    w: int,
    h: int,
    tw: int,
    th: int,
) -> bool {
    &&& thumb.sums@.len() == tw * th
    &&& thumb.area == (w / tw) * (h / th)
    &&& forall|tx: int, ty: int|
        #![trigger plane::index_of(tw, tx, ty)]
        plane::in_plane(tw, th, tx, ty) ==> thumb.sums@[plane::index_of(tw, tx, ty)] == block_sum(
            gray,
            w,
            h,
            tw,
            th,
            tx,
            ty,
        )
}

/// Side of the thumbnail of a frame with this side.
pub fn thumbnail_side(side: usize) -> (t: usize)
    ensures
        t == thumb_side(side as int),
        t >= 1,
        side / t <= 15,
        t * (side / t) <= side,
        t <= side || t == 1,
{
    let t: usize = if side / THUMB_DIV > 1 {
        side / THUMB_DIV
    } else {
        1
    };
    proof {
        vstd::arithmetic::div_mod::lemma_fundamental_div_mod(side as int, t as int);
        assert(side / t <= 15) by (nonlinear_arith)
            requires
                side as int == t * (side as int / t as int) + side as int % t as int,
                side as int % t as int >= 0,
                side < 15 * t + 15,
                side <= 15 * t,
                t >= 1,
        ;
    }
    t
}

/// Sum of one block.
fn sum_block(
    gray: &[u8],
    width: usize,
    height: usize,
    x0: usize,
    y0: usize,
    bx: usize,
    by: usize,
) -> (acc: u32)
    requires
        gray@.len() == width * height,
        x0 + bx <= width,
        y0 + by <= height,
        bx <= 15,
        by <= 15,
    ensures
        acc == threshold::box_sum(
            gray@,
            width as int,
            x0 as int,
            x0 + bx,
            y0 as int,
            y0 + by,
        ),
{
    let ghost w = width as int;
    let mut acc: u32 = 0;
    let mut y: usize = y0;
    while y < y0 + by
        invariant
            gray@.len() == width * height,
            w == width,
            x0 + bx <= width,
            y0 + by <= height,
            bx <= 15,
            by <= 15,
            y0 <= y <= y0 + by,
            acc == threshold::box_sum(gray@, w, x0 as int, x0 + bx, y0 as int, y as int),
            acc <= 3825 * (y - y0),
        decreases y0 + by - y,
    {
        let mut x: usize = x0;
        let ghost before = acc as int;
        while x < x0 + bx
            invariant
                gray@.len() == width * height,
                w == width,
                x0 + bx <= width,
                y0 + by <= height,
                bx <= 15,
                by <= 15,
                y0 <= y < y0 + by,
                x0 <= x <= x0 + bx,
                before <= 3825 * (y - y0),
                acc == before + threshold::row_sum(gray@, w, y as int, x0 as int, x as int),
                acc <= before + 255 * (x - x0),
            decreases x0 + bx - x,
        {
            proof {
                plane::lemma_index_bounds(w, height as int, x as int, y as int);
                assert(gray@.len() == gray.len());
            }
            acc = acc + gray[y * width + x] as u32;
            x = x + 1;
        }
        y = y + 1;
    }
    acc
}

/// Box downscale of a luma plane to `tw` x `th` block sums.
fn downscale(gray: &[u8], width: usize, height: usize, tw: usize, th: usize) -> (thumb: Thumb)
    requires
        gray@.len() == width * height,
        tw >= 1,
        th >= 1,
        width / tw <= 15,
        height / th <= 15,
        tw * (width / tw) <= width,
        th * (height / th) <= height,
        tw * th <= usize::MAX,
    ensures
        is_downscaled(thumb, gray@, width as int, height as int, tw as int, th as int),
{
    let ghost w = width as int;
    let ghost h = height as int;
    let bx: usize = width / tw;
    let by: usize = height / th;
    proof {
        assert(bx * by <= 225) by (nonlinear_arith)
            requires
                0 <= bx <= 15,
                0 <= by <= 15,
        ;
    }
    let area: u32 = (bx * by) as u32;
    let mut sums: Vec<u32> = Vec::new();
    let total: usize = tw * th;
    let mut i: usize = 0;
    while i < total
        invariant
            i <= total,
            total == tw * th,
            w == width,
            h == height,
            tw >= 1,
            th >= 1,
            bx == width / tw,
            by == height / th,
            bx <= 15,
            by <= 15,
            tw * bx <= width,
            th * by <= height,
            gray@.len() == width * height,
            sums@.len() == i,
            forall|k: int|
                0 <= k < i ==> #[trigger] sums@[k] == block_sum(
                    gray@,
                    w,
                    h,
                    tw as int,
                    th as int,
                    k % tw as int,
                    k / tw as int,
                ),
        decreases total - i,
    {
        let tx: usize = i % tw;
        let ty: usize = i / tw;
        proof {
            plane::lemma_index_unsplit(tw as int, th as int, i as int);
            lemma_block_inside(w, tw as int, bx as int, tx as int);
            lemma_block_inside(h, th as int, by as int, ty as int);
        }
        let sum: u32 = sum_block(gray, width, height, tx * bx, ty * by, bx, by);
        sums.push(sum);
        i = i + 1;
    }
    let thumb = Thumb { sums, area };
    proof {
        assert forall|tx: int, ty: int|
            #![trigger plane::index_of(tw as int, tx, ty)]
            plane::in_plane(tw as int, th as int, tx, ty) implies thumb.sums@[plane::index_of(
            tw as int,
            tx,
            ty,
        )] == block_sum(gray@, w, h, tw as int, th as int, tx, ty) by {
            plane::lemma_index_bounds(tw as int, th as int, tx, ty);
            plane::lemma_index_split(tw as int, tx, ty);
            let k = plane::index_of(tw as int, tx, ty);
            assert(thumb.sums@[k] == block_sum(
                gray@,
                w,
                h,
                tw as int,
                th as int,
                k % tw as int,
                k / tw as int,
            ));
        }
    }
    thumb
}

/// Block `t` of `n` blocks of size `b` lies inside the side.
proof fn lemma_block_inside(side: int, n: int, b: int, t: int)
    requires
        0 <= t < n,
        0 <= b,
        n * b <= side,
    ensures
        0 <= t * b,
        t * b + b <= side,
{
    assert(0 <= t * b && t * b + b <= n * b) by (nonlinear_arith)
        requires
            0 <= t < n,
            0 <= b,
    ;
}

/// Squared central-difference gradient at (x, y).
pub open spec fn energy_at(gray: Seq<u8>, w: int, x: int, y: int) -> int {
    let gx = frame::px(gray, w, x + 1, y) - frame::px(gray, w, x - 1, y);
    let gy = frame::px(gray, w, x, y + 1) - frame::px(gray, w, x, y - 1);
    gx * gx + gy * gy
}

/// Energy of the first `k` grid points (odd columns) of row `y`.
pub open spec fn row_energy(gray: Seq<u8>, w: int, y: int, k: int) -> int
    decreases k,
{
    if k <= 0 {
        0
    } else {
        row_energy(gray, w, y, k - 1) + energy_at(gray, w, 2 * k - 1, y)
    }
}

/// Energy of the first `k` grid rows (odd rows), `n` points each.
pub open spec fn grid_energy(gray: Seq<u8>, w: int, n: int, k: int) -> int
    decreases k,
{
    if k <= 0 {
        0
    } else {
        grid_energy(gray, w, n, k - 1) + row_energy(gray, w, 2 * k - 1, n)
    }
}

/// Tenengrad sharpness: mean squared central-difference gradient, sampled on
/// a stride-2 grid of interior pixels.
pub open spec fn sharpness_of(gray: Seq<u8>, w: int, h: int) -> Double {
    if w < 4 || h < 4 {
        Double { bits: 0 }
    } else {
        let (nx, ny) = ((w - 1) / 2, (h - 1) / 2);
        double::quotient(double::whole(grid_energy(gray, w, nx, ny)), double::whole(nx * ny))
    }
}

fn energy(gray: &[u8], width: usize, height: usize, x: usize, y: usize) -> (e: u64)
    requires
        gray@.len() == width * height,
        frame::is_interior(width as int, height as int, x as int, y as int),
    ensures
        e == energy_at(gray@, width as int, x as int, y as int),
        e <= 130050,
{
    let east: i64 = luma(gray, width, height, x + 1, y);
    let west: i64 = luma(gray, width, height, x - 1, y);
    let south: i64 = luma(gray, width, height, x, y + 1);
    let north: i64 = luma(gray, width, height, x, y - 1);
    let gx: i64 = east - west;
    let gy: i64 = south - north;
    assert(0 <= gx * gx <= 65025) by (nonlinear_arith)
        requires
            -255 <= gx <= 255,
    ;
    assert(0 <= gy * gy <= 65025) by (nonlinear_arith)
        requires
            -255 <= gy <= 255,
    ;
    (gx * gx + gy * gy) as u64
}

fn luma(gray: &[u8], width: usize, height: usize, x: usize, y: usize) -> (v: i64)
    requires
        gray@.len() == width * height,
        plane::in_plane(width as int, height as int, x as int, y as int),
    ensures
        v == frame::px(gray@, width as int, x as int, y as int),
        0 <= v <= 255,
{
    proof {
        plane::lemma_index_bounds(width as int, height as int, x as int, y as int);
        assert(gray@.len() == gray.len());
    }
    gray[y * width + x] as i64
}

/// Tenengrad sharpness, see [`sharpness_of`].
pub fn tenengrad(gray: &[u8], width: usize, height: usize) -> (s: Double)
    requires
        gray@.len() == width * height,
        width * height <= u32::MAX,
    ensures
        s == sharpness_of(gray@, width as int, height as int),
{
    if width < 4 || height < 4 {
        return Double::from_bits(0);
    }
    let ghost w = width as int;
    let nx: usize = (width - 1) / 2;
    let ny: usize = (height - 1) / 2;
    proof {
        assert(width <= u32::MAX && height <= u32::MAX) by (nonlinear_arith)
            requires
                width * height <= u32::MAX,
                width >= 4,
                height >= 4,
        ;
        assert(1 <= nx * ny <= u32::MAX) by (nonlinear_arith)
            requires
                width * height <= u32::MAX,
                1 <= nx <= width,
                1 <= ny <= height,
        ;
    }
    let mut acc: u64 = 0;
    let mut j: usize = 0;
    while j < ny
        invariant
            j <= ny,
            w == width,
            nx == (width - 1) / 2,
            ny == (height - 1) / 2,
            1 <= nx <= u32::MAX,
            nx * ny <= u32::MAX,
            gray@.len() == width * height,
            acc == grid_energy(gray@, w, nx as int, j as int),
            acc <= 130050 * (nx * j),
        decreases ny - j,
    {
        let y: usize = 2 * j + 1;
        let ghost before = acc as int;
        let mut i: usize = 0;
        proof {
            assert(nx * j + nx <= nx * ny) by (nonlinear_arith)
                requires
                    j < ny,
                    nx >= 0,
            ;
        }
        while i < nx
            invariant
                i <= nx,
                j < ny,
                y == 2 * j + 1,
                w == width,
                nx == (width - 1) / 2,
                ny == (height - 1) / 2,
                gray@.len() == width * height,
                acc == before + row_energy(gray@, w, y as int, i as int),
                acc <= before + 130050 * i,
                before <= 130050 * (nx * j),
                nx * j + nx <= u32::MAX,
            decreases nx - i,
        {
            acc = acc + energy(gray, width, height, 2 * i + 1, y);
            i = i + 1;
        }
        j = j + 1;
        proof {
            assert(nx * j == nx * (j - 1) + nx) by (nonlinear_arith);
        }
    }
    Double::from_count(acc).over(&Double::from_count(nx as u64 * ny as u64))
}

/// Luma plane, thumbnail and sharpness of a frame. The RGBA copy is deferred
/// until a frame is actually retained.
pub struct Analysis {
    pub gray: Vec<u8>,
    pub thumb: Thumb,
    pub sharpness: Double,
}

/// `a` is the analysis of an RGBA frame.
pub open spec fn is_analysis(a: Analysis, rgba: Seq<u8>, w: int, h: int) -> bool {
    &&& a.gray@.len() == w * h
    &&& frame::is_luma_plane(a.gray@, rgba)
    &&& is_downscaled(a.thumb, a.gray@, w, h, thumb_side(w), thumb_side(h))
    &&& a.sharpness == sharpness_of(a.gray@, w, h)
}

/// Analyze one RGBA frame (`width * height * 4` bytes).
pub fn analyze(rgba: &[u8], width: usize, height: usize) -> (a: Analysis)
    requires
        width * height <= u32::MAX,
        rgba@.len() == width * height * 4,
    ensures
        is_analysis(a, rgba@, width as int, height as int),
{
    let n: usize = rgba.len() / 4;
    let mut gray: Vec<u8> = vec![0u8; n];
    grayscale(rgba, gray.as_mut_slice());
    let tw: usize = thumbnail_side(width);
    let th: usize = thumbnail_side(height);
    proof {
        lemma_thumb_area(width as int, height as int, tw as int, th as int);
        assert(rgba@.len() == rgba.len());
    }
    let thumb: Thumb = downscale(gray.as_slice(), width, height, tw, th);
    let sharpness: Double = tenengrad(gray.as_slice(), width, height);
    Analysis { gray, thumb, sharpness }
}

/// A thumbnail is no larger than a frame.
pub proof fn lemma_thumb_area(w: int, h: int, tw: int, th: int)
    requires
        0 <= w <= usize::MAX,
        0 <= h <= usize::MAX,
        0 <= w * h <= u32::MAX,
        tw == thumb_side(w),
        th == thumb_side(h),
    ensures
        tw * th <= usize::MAX,
        w <= u32::MAX && h <= u32::MAX ==> tw * th <= u32::MAX,
{
    if tw == 1 {
        assert(tw * th == th) by (nonlinear_arith)
            requires
                tw == 1,
        ;
    } else if th == 1 {
        assert(tw * th == tw) by (nonlinear_arith)
            requires
                th == 1,
        ;
    } else {
        assert(tw * th <= w * h) by (nonlinear_arith)
            requires
                0 <= tw <= w,
                0 <= th <= h,
        ;
    }
}

} // verus!
