//! Harris-style corner extraction, grid-distributed so that features spread
//! along the wall rather than clustering on one fixture.
use vstd::prelude::*;

use crate::double;
use crate::double::Double;
use crate::plane;
use crate::shift;
use crate::shift::from_signed;
use crate::single;
use crate::sorting;
use crate::sorting::sort_by_key;

verus! {

/// Grid cells across.
pub const GRID_X: usize = 12;

/// Grid cells down.
pub const GRID_Y: usize = 7;

/// Border without features: patch radius and search head-room.
pub const MARGIN: usize = 10;

/// Two features of one cell are more than this apart (L1, px).
pub const MIN_SEPARATION: usize = 6;

/// Weight of the squared trace in the response: the bits of the single 0.05.
pub const HARRIS_WEIGHT: u64 = 0x3fa9_9999_a000_0000;

/// Fraction of the frame's best response that is meaningful: the bits of the
/// single 1e-4.
pub const LEAST_RESPONSE: u64 = 0x3f1a_36e2_e000_0000;

/// Features of a keyframe that are followed into the next one.
pub const MAX_FEATURES: usize = 150;

/// Luma of a pixel.
pub open spec fn luma(gray: Seq<u8>, w: int, x: int, y: int) -> int {
    gray[plane::index_of(w, x, y)] as int
}

/// Product of the gradients of a pixel: along x squared, along y squared, or
/// one times the other.
pub open spec fn gradient_product(gray: Seq<u8>, w: int, x: int, y: int, part: Part) -> int {
    let gx = luma(gray, w, x + 1, y) - luma(gray, w, x - 1, y);
    let gy = luma(gray, w, x, y + 1) - luma(gray, w, x, y - 1);
    match part {
        Part::XX => gx * gx,
        Part::YY => gy * gy,
        Part::XY => gx * gy,
    }
}

/// Component of the structure tensor.
#[derive(Clone, Copy, Debug)]
pub enum Part {
    XX,
    YY,
    XY,
}

/// Gradient products summed over the first `n` pixels of the 5x5 window.
pub open spec fn window_sum(gray: Seq<u8>, w: int, x: int, y: int, part: Part, n: int) -> int
    decreases n,
{
    if n <= 0 {
        0
    } else {
        window_sum(gray, w, x, y, part, n - 1) + gradient_product(
            gray,
            w,
            x - 2 + (n - 1) % 5,
            y - 2 + (n - 1) / 5,
            part,
        )
    }
}

/// Component of the structure tensor of a pixel, with a 5x5 box window.
pub open spec fn tensor(gray: Seq<u8>, w: int, x: int, y: int, part: Part) -> int {
    window_sum(gray, w, x, y, part, 25)
}

/// The window around a pixel and the pixels next to it are in the plane.
pub open spec fn is_inner(w: int, h: int, x: int, y: int) -> bool {
    3 <= x < w - 3 && 3 <= y < h - 3
}

fn pixel(gray: &[u8], w: usize, Ghost(h): Ghost<int>, x: usize, y: usize) -> (v: i64)
    requires
        gray@.len() == w * h,
        plane::in_plane(w as int, h, x as int, y as int),
    ensures
        v == luma(gray@, w as int, x as int, y as int),
        0 <= v <= 255,
{
    proof {
        assert(gray@.len() == gray.len());
        plane::lemma_index_bounds(w as int, h, x as int, y as int);
    }
    gray[y * w + x] as i64
}

/// The structure tensor of a pixel: (sum of gx^2, sum of gy^2, sum of gx gy).
fn structure_tensor(gray: &[u8], w: usize, Ghost(h): Ghost<int>, x: usize, y: usize) -> (t: (
    i64,
    i64,
    i64,
))
    requires
        gray@.len() == w * h,
        is_inner(w as int, h, x as int, y as int),
        h <= usize::MAX,
    ensures
        t.0 == tensor(gray@, w as int, x as int, y as int, Part::XX),
        t.1 == tensor(gray@, w as int, x as int, y as int, Part::YY),
        t.2 == tensor(gray@, w as int, x as int, y as int, Part::XY),
        -0x1000_0000 < t.0 < 0x1000_0000,
        -0x1000_0000 < t.1 < 0x1000_0000,
        -0x1000_0000 < t.2 < 0x1000_0000,
{
    let ghost (wi, xi, yi) = (w as int, x as int, y as int);
    let mut sxx: i64 = 0;
    let mut syy: i64 = 0;
    let mut sxy: i64 = 0;
    let mut n: usize = 0;
    while n < 25
        invariant
            gray@.len() == w * h,
            is_inner(wi, h, xi, yi),
            h <= usize::MAX,
            wi == w,
            xi == x,
            yi == y,
            n <= 25,
            sxx == window_sum(gray@, wi, xi, yi, Part::XX, n as int),
            syy == window_sum(gray@, wi, xi, yi, Part::YY, n as int),
            sxy == window_sum(gray@, wi, xi, yi, Part::XY, n as int),
            -65025 * n <= sxx <= 65025 * n,
            -65025 * n <= syy <= 65025 * n,
            -65025 * n <= sxy <= 65025 * n,
        decreases 25 - n,
    {
        let px: usize = x - 2 + n % 5;
        let py: usize = y - 2 + n / 5;
        let gx: i64 = pixel(gray, w, Ghost(h), px + 1, py) - pixel(gray, w, Ghost(h), px - 1, py);
        let gy: i64 = pixel(gray, w, Ghost(h), px, py + 1) - pixel(gray, w, Ghost(h), px, py - 1);
        assert(0 <= gx * gx <= 65025 && 0 <= gy * gy <= 65025 && -65025 <= gx * gy <= 65025)
            by (nonlinear_arith)
            requires
                -255 <= gx <= 255,
                -255 <= gy <= 255,
        ;
        sxx = sxx + gx * gx;
        syy = syy + gy * gy;
        sxy = sxy + gx * gy;
        n = n + 1;
    }
    (sxx, syy, sxy)
}

/// Harris response of a structure tensor, in single precision.
pub open spec fn harris_response(xx: Double, yy: Double, xy: Double) -> Double {
    let det = single::nearest_single(
        single::nearest_single(xx * yy) - single::nearest_single(xy * xy),
    );
    let tr = single::nearest_single(xx + yy);
    single::nearest_single(
        det - single::nearest_single(
            single::nearest_single(Double { bits: HARRIS_WEIGHT } * tr) * tr,
        ),
    )
}

/// Harris response of a pixel.
pub open spec fn response_at(gray: Seq<u8>, w: int, x: int, y: int) -> Double {
    harris_response(
        shift::signed_whole(tensor(gray, w, x, y, Part::XX)),
        shift::signed_whole(tensor(gray, w, x, y, Part::YY)),
        shift::signed_whole(tensor(gray, w, x, y, Part::XY)),
    )
}

fn harris(t: (i64, i64, i64)) -> (r: Double)
    requires
        -0x1000_0000 < t.0 < 0x1000_0000,
        -0x1000_0000 < t.1 < 0x1000_0000,
        -0x1000_0000 < t.2 < 0x1000_0000,
    ensures
        r == harris_response(
            shift::signed_whole(t.0 as int),
            shift::signed_whole(t.1 as int),
            shift::signed_whole(t.2 as int),
        ),
{
    let xx: Double = from_signed(t.0);
    let yy: Double = from_signed(t.1);
    let xy: Double = from_signed(t.2);
    let det: Double = ((xx * yy).to_single() - (xy * xy).to_single()).to_single();
    let tr: Double = (xx + yy).to_single();
    (det - ((Double::from_bits(HARRIS_WEIGHT) * tr).to_single() * tr).to_single()).to_single()
}

/// What a response must exceed, in a frame with this best one.
pub open spec fn least_response(peak: Double) -> Double {
    single::nearest_single(peak * Double { bits: LEAST_RESPONSE })
}

/// A pixel and its response.
pub type Feature = (Double, [usize; 2]);

/// The two best features of a cell so far.
#[derive(Clone, Copy, Debug)]
pub struct BestTwo {
    pub first: Feature,
    pub second: Feature,
}

/// L1 distance of a pixel from a feature.
pub open spec fn separation(f: Feature, x: int, y: int) -> int {
    let dx = x - f.1[0];
    let dy = y - f.1[1];
    (if dx < 0 {
        -dx
    } else {
        dx
    }) + (if dy < 0 {
        -dy
    } else {
        dy
    })
}

/// The two best features, with one more pixel looked at: the two strongest that
/// are far enough apart.
pub open spec fn best_with(best: BestTwo, r: Double, x: int, y: int) -> BestTwo {
    let here = (r, [x as usize, y as usize]);
    let apart = separation(best.first, x, y) > MIN_SEPARATION;
    if best.first.0.less(r) {
        BestTwo {
            first: here,
            second: if apart {
                best.first
            } else {
                best.second
            },
        }
    } else if best.second.0.less(r) && apart {
        BestTwo { first: best.first, second: here }
    } else {
        best
    }
}

fn update_best(best: &BestTwo, r: Double, x: usize, y: usize) -> (next: BestTwo)
    requires
        x <= i32::MAX,
        y <= i32::MAX,
        best.first.1[0] <= i32::MAX,
        best.first.1[1] <= i32::MAX,
    ensures
        next == best_with(*best, r, x as int, y as int),
{
    let bx: usize = best.first.1[0];
    let by: usize = best.first.1[1];
    let dx: usize = if x < bx {
        bx - x
    } else {
        x - bx
    };
    let dy: usize = if y < by {
        by - y
    } else {
        y - by
    };
    let apart: bool = dx + dy > MIN_SEPARATION;
    let here: Feature = (r, [x, y]);
    if best.first.0.lt(&r) {
        BestTwo {
            first: here,
            second: if apart {
                best.first
            } else {
                best.second
            },
        }
    } else if best.second.0.lt(&r) && apart {
        BestTwo { first: best.first, second: here }
    } else {
        *best
    }
}

/// The grid over a frame: size of a cell, and of the lattice of every other
/// pixel in it.
pub open spec fn cell_width(w: int) -> int {
    (w - 2 * MARGIN) / (GRID_X as int)
}

pub open spec fn cell_height(h: int) -> int {
    (h - 2 * MARGIN) / (GRID_Y as int)
}

pub open spec fn lattice_width(w: int) -> int {
    (cell_width(w) + 1) / 2
}

/// Lattice pixels in a cell.
pub open spec fn lattice_size(w: int, h: int) -> int {
    lattice_width(w) * ((cell_height(h) + 1) / 2)
}

/// x of lattice pixel `k` of cell `c`.
pub open spec fn lattice_x(w: int, c: int, k: int) -> int {
    MARGIN + (c % (GRID_X as int)) * cell_width(w) + 2 * (k % lattice_width(w))
}

/// y of lattice pixel `k` of cell `c`.
pub open spec fn lattice_y(w: int, h: int, c: int, k: int) -> int {
    MARGIN + (c / (GRID_X as int)) * cell_height(h) + 2 * (k / lattice_width(w))
}

/// Response of lattice pixel `k` of cell `c`.
pub open spec fn lattice_response(
    gray: Seq<u8>,
    w: int,
    h: int,
    c: int,
    k: int,
) -> Double {
    response_at(gray, w, lattice_x(w, c, k), lattice_y(w, h, c, k))
}

/// The two best of the first `k` lattice pixels of cell `c`.
pub open spec fn best_of(
    gray: Seq<u8>,
    w: int,
    h: int,
    c: int,
    k: int,
) -> BestTwo
    decreases k,
{
    if k <= 0 {
        let none = (Double { bits: 0 }, [0usize, 0usize]);
        BestTwo { first: none, second: none }
    } else {
        best_with(
            best_of(gray, w, h, c, k - 1),
            lattice_response(gray, w, h, c, k - 1),
            lattice_x(w, c, k - 1),
            lattice_y(w, h, c, k - 1),
        )
    }
}

/// Largest of `start` and the responses of the first `k` lattice pixels of cell
/// `c`.
pub open spec fn peak_of(
    gray: Seq<u8>,
    w: int,
    h: int,
    c: int,
    k: int,
    start: Double,
) -> Double
    decreases k,
{
    if k <= 0 {
        start
    } else {
        double::larger(
            peak_of(gray, w, h, c, k - 1, start),
            lattice_response(gray, w, h, c, k - 1),
        )
    }
}

/// Largest response of the first `c` cells, at least 0.
pub open spec fn peak_before(
    gray: Seq<u8>,
    w: int,
    h: int,
    c: int,
) -> Double
    decreases c,
{
    if c <= 0 {
        Double { bits: 0 }
    } else {
        peak_of(
            gray,
            w,
            h,
            c - 1,
            lattice_size(w, h),
            peak_before(gray, w, h, c - 1),
        )
    }
}

/// A list with a feature added, where its response exceeds `least`.
pub open spec fn added(list: Seq<Feature>, f: Feature, least: Double) -> Seq<Feature> {
    if least.less(f.0) {
        list.push(f)
    } else {
        list
    }
}

/// The features of the first `c` cells.
pub open spec fn features_before(
    gray: Seq<u8>,
    w: int,
    h: int,
    c: int,
) -> Seq<Feature>
    decreases c,
{
    if c <= 0 {
        Seq::empty()
    } else {
        let best = best_of(gray, w, h, c - 1, lattice_size(w, h));
        let zero = Double { bits: 0 };
        added(
            added(features_before(gray, w, h, c - 1), best.first, zero),
            best.second,
            zero,
        )
    }
}

/// Those of the first `n` features whose response exceeds `least`, each by its
/// response negated.
pub open spec fn strong_of(list: Seq<Feature>, least: Double, n: int) -> Seq<Feature>
    decreases n,
{
    if n <= 0 {
        Seq::empty()
    } else if least.less(list[n - 1].0) {
        strong_of(list, least, n - 1).push((list[n - 1].0.opposite(), list[n - 1].1))
    } else {
        strong_of(list, least, n - 1)
    }
}

/// Features whose response exceeds `least`, strongest first, at most `cap` of
/// them.
pub open spec fn strongest(list: Seq<Feature>, least: Double, cap: int) -> Seq<[usize; 2]> {
    let all = sorting::sorted(strong_of(list, least, list.len() as int));
    Seq::new(
        (if all.len() <= cap {
            all.len() as int
        } else {
            cap
        }) as nat,
        |i: int| all[i].1,
    )
}

/// The corners of a luma plane: the strongest features of its grid cells, at most
/// `cap` of them; none in a frame that is all margin.
pub open spec fn corners_in(gray: Seq<u8>, w: int, h: int, cap: int) -> Seq<[usize; 2]> {
    if w <= 2 * MARGIN || h <= 2 * MARGIN {
        Seq::empty()
    } else {
        strongest(
            features_before(gray, w, h, GRID_X * GRID_Y),
            least_response(peak_before(gray, w, h, GRID_X * GRID_Y)),
            cap,
        )
    }
}

/// Every feature lies in the frame.
spec fn are_inside(list: Seq<Feature>, w: int, h: int) -> bool {
    forall|i: int| 0 <= i < list.len() ==> (#[trigger] list[i]).1[0] < w && list[i].1[1] < h
}

/// Features whose response exceeds `least`, strongest first, at most `cap` of
/// them.
fn keep_strongest(
    list: &Vec<Feature>,
    least: &Double,
    cap: usize,
    Ghost(w): Ghost<int>,
    Ghost(h): Ghost<int>,
) -> (points: Vec<[usize; 2]>)
    requires
        are_inside(list@, w, h),
    ensures
        points@ == strongest(list@, *least, cap as int),
        points@.len() <= cap,
        forall|i: int|
            0 <= i < points@.len() ==> (#[trigger] points@[i])[0] < w && points@[i][1] < h,
{
    let mut strong: Vec<Feature> = Vec::new();
    let mut i: usize = 0;
    while i < list.len()
        invariant
            i <= list@.len(),
            strong@ == strong_of(list@, *least, i as int),
            are_inside(list@, w, h),
            are_inside(strong@, w, h),
        decreases list@.len() - i,
    {
        if least.lt(&list[i].0) {
            strong.push((list[i].0.negate(), list[i].1));
        }
        i = i + 1;
    }
    let all: Vec<Feature> = sort_by_key(&strong);
    proof {
        broadcast use vstd::seq_lib::group_to_multiset_ensures;

        sorting::law_sorted(strong@);
        assert forall|j: int| 0 <= j < all@.len() implies (#[trigger] all@[j]).1[0] < w
            && all@[j].1[1]
            < h by {
            assert(all@.to_multiset().count(all@[j]) > 0);
            assert(strong@.contains(all@[j]));
        }
    }
    let mut points: Vec<[usize; 2]> = Vec::new();
    let mut k: usize = 0;
    while k < all.len() && k < cap
        invariant
            k <= all@.len(),
            k <= cap,
            points@.len() == k,
            are_inside(all@, w, h),
            forall|m: int| 0 <= m < k ==> #[trigger] points@[m] == all@[m].1,
        decreases all@.len() - k,
    {
        points.push(all[k].1);
        k = k + 1;
    }
    assert(points@ =~= strongest(list@, *least, cap as int));
    points
}

proof fn lemma_lattice_in_cell(w: int, h: int, c: int, k: int)
    requires
        w > 2 * MARGIN,
        h > 2 * MARGIN,
        0 <= c < GRID_X * GRID_Y,
        0 <= k < lattice_size(w, h),
    ensures
        lattice_width(w) > 0,
        MARGIN <= lattice_x(w, c, k) < w - MARGIN,
        MARGIN <= lattice_y(w, h, c, k) < h - MARGIN,
{
    let (cw, ch, lw) = (cell_width(w), cell_height(h), lattice_width(w));
    let lh = (ch + 1) / 2;
    assert(lw > 0 && lh > 0) by (nonlinear_arith)
        requires
            0 <= k < lw * lh,
            lw >= 0,
            lh >= 0,
    ;
    assert(0 <= k % lw < lw && 0 <= k / lw < lh) by (nonlinear_arith)
        requires
            0 <= k < lw * lh,
            lw > 0,
    ;
    let (i, j) = (c % 12, c / 12);
    assert(i * cw <= 11 * cw) by (nonlinear_arith)
        requires
            0 <= i <= 11,
            cw >= 0,
    ;
    assert(j * ch <= 6 * ch) by (nonlinear_arith)
        requires
            0 <= j <= 6,
            ch >= 0,
    ;
    assert(0 <= i * cw && 0 <= j * ch) by (nonlinear_arith)
        requires
            0 <= i,
            0 <= j,
            cw >= 0,
            ch >= 0,
    ;
}

/// Corners of a luma plane: up to two in each grid cell, strongest first, at
/// most `max_pts`. Only responses that are meaningful relative to the frame's
/// best are kept.
#[verifier::rlimit(30)]
pub fn harris_corners(gray: &[u8], w: usize, h: usize, max_pts: usize) -> (points: Vec<
    [usize; 2],
>)
    requires
        gray@.len() == w * h,
        w <= i32::MAX,
        h <= i32::MAX,
    ensures
        points@ == corners_in(gray@, w as int, h as int, max_pts as int),
        points@.len() <= max_pts,
        forall|i: int|
            0 <= i < points@.len() ==> (#[trigger] points@[i])[0] < w && points@[i][1] < h,
{
    if w <= 2 * MARGIN || h <= 2 * MARGIN {
        return Vec::new();
    }
    let ghost (wi, hi) = (w as int, h as int);
    let cell_w: usize = (w - 2 * MARGIN) / GRID_X;
    let cell_h: usize = (h - 2 * MARGIN) / GRID_Y;
    let across: usize = (cell_w + 1) / 2;
    let down: usize = (cell_h + 1) / 2;
    proof {
        assert(across * down <= w * h) by (nonlinear_arith)
            requires
                0 <= across <= w,
                0 <= down <= h,
        ;
        assert(gray@.len() == gray.len());
    }
    let total: usize = across * down;
    let zero: Double = Double::from_bits(0);
    let mut list: Vec<Feature> = Vec::new();
    let mut peak: Double = zero;
    let mut c: usize = 0;
    while c < GRID_X * GRID_Y
        invariant
            gray@.len() == w * h,
            wi == w,
            hi == h,
            2 * MARGIN < w <= i32::MAX,
            2 * MARGIN < h <= i32::MAX,
            cell_w == cell_width(wi),
            cell_h == cell_height(hi),
            across == lattice_width(wi),
            total == lattice_size(wi, hi),
            zero == (Double { bits: 0 }),
            c <= GRID_X * GRID_Y,
            list@ == features_before(gray@, wi, hi, c as int),
            are_inside(list@, wi, hi),
            peak == peak_before(gray@, wi, hi, c as int),
        decreases GRID_X * GRID_Y - c,
    {
        let ghost start = peak;
        let mut best: BestTwo = BestTwo { first: (zero, [0, 0]), second: (zero, [0, 0]) };
        let mut k: usize = 0;
        while k < total
            invariant
                gray@.len() == w * h,
                wi == w,
                hi == h,
                2 * MARGIN < w <= i32::MAX,
                2 * MARGIN < h <= i32::MAX,
                cell_w == cell_width(wi),
                cell_h == cell_height(hi),
                across == lattice_width(wi),
                total == lattice_size(wi, hi),
                c < GRID_X * GRID_Y,
                k <= total,
                best == best_of(gray@, wi, hi, c as int, k as int),
                best.first.1[0] < w,
                best.first.1[1] < h,
                best.second.1[0] < w,
                best.second.1[1] < h,
                peak == peak_of(gray@, wi, hi, c as int, k as int, start),
            decreases total - k,
        {
            proof {
                lemma_lattice_in_cell(wi, hi, c as int, k as int);
            }
            let ghost (xi, yi) = (
                lattice_x(wi, c as int, k as int),
                lattice_y(wi, hi, c as int, k as int),
            );
            proof {
                assert(0 <= (c % 12) * cell_w && 0 <= (c / 12) * cell_h) by (nonlinear_arith);
            }
            let x: usize = MARGIN + (c % GRID_X) * cell_w + 2 * (k % across);
            let y: usize = MARGIN + (c / GRID_X) * cell_h + 2 * (k / across);
            let t: (i64, i64, i64) = structure_tensor(gray, w, Ghost(hi), x, y);
            let r: Double = harris(t);
            assert(r == lattice_response(gray@, wi, hi, c as int, k as int));
            best = update_best(&best, r, x, y);
            peak = peak.max(&r);
            k = k + 1;
        }
        if zero.lt(&best.first.0) {
            list.push(best.first);
        }
        if zero.lt(&best.second.0) {
            list.push(best.second);
        }
        c = c + 1;
    }
    let least: Double = (peak * Double::from_bits(LEAST_RESPONSE)).to_single();
    keep_strongest(&list, &least, max_pts, Ghost(wi), Ghost(hi))
}

} // verus!
