//! The rendered wall: its extent and resolution, and which keyframe each pixel
//! comes from.
use vstd::prelude::*;

use crate::chain;
use crate::closure;
use crate::closure::{clamp, Quad};
use crate::distortion::Distortion;
use crate::double;
use crate::double::Double;
use crate::edge::Point;
use crate::homography;
use crate::homography::Homography;
use crate::linalg;
use crate::linalg::{mat3_inv, Mat3};
use crate::magnitude;
use crate::sample;
use crate::sample::sample_rgb;

verus! {

/// Furthest a stitched wall extends from the anchor (mm): the bits of 8000.0.
pub const MAX_PAN_EXTENT_MM: u64 = 0x40bf_4000_0000_0000;

/// Longest sides (px) of a stitched wall.
pub const MAX_PAN_OUT_W: usize = 4096;

pub const MAX_PAN_OUT_H: usize = 1440;

/// Furthest a rectified still extends from the anchor (mm), as points near the
/// horizon back-project to absurd plane coordinates: the bits of 6000.0.
pub const MAX_EXTENT_MM: u64 = 0x40b7_7000_0000_0000;

/// Longest side (px) of a rectified still.
pub const MAX_OUTPUT_PX: usize = 1600;

/// Shortest side (px) of an output.
pub const MIN_OUTPUT_PX: usize = 8;

/// Colour of what no frame covers, so that the captured extent is visible.
pub const UNCOVERED: [u8; 3] = [24, 24, 28];

/// The bits of 1.0.
pub const ONE: u64 = 0x3ff0_0000_0000_0000;

/// The bits of 0.5.
pub const ONE_HALF: u64 = 0x3fe0_0000_0000_0000;

/// The bits of 4.0.
pub const FOUR: u64 = 0x4010_0000_0000_0000;

/// A rectangle on the wall (mm).
#[derive(Clone, Copy, Debug)]
pub struct Extent {
    pub min_x: Double,
    pub min_y: Double,
    pub max_x: Double,
    pub max_y: Double,
}

/// Nothing yet.
pub open spec fn no_extent() -> Extent {
    Extent {
        min_x: Double { bits: 0x7ff0_0000_0000_0000 },
        min_y: Double { bits: 0x7ff0_0000_0000_0000 },
        max_x: Double { bits: 0xfff0_0000_0000_0000 },
        max_y: Double { bits: 0xfff0_0000_0000_0000 },
    }
}

/// An extent that also holds a point, kept within `limit` of the anchor.
pub open spec fn extended(e: Extent, p: Option<(Double, Double)>, limit: Double) -> Extent {
    match p {
        None => e,
        Some((x, y)) => {
            let cx = closure::clamped(x, limit.opposite(), limit);
            let cy = closure::clamped(y, limit.opposite(), limit);
            Extent {
                min_x: double::smaller(e.min_x, cx),
                min_y: double::smaller(e.min_y, cy),
                max_x: double::larger(e.max_x, cx),
                max_y: double::larger(e.max_y, cy),
            }
        },
    }
}

/// An extent that also holds a frame's corners on the wall.
pub open spec fn extended_by_frame(e: Extent, inv: Mat3, corners: Quad, limit: Double) -> Extent {
    extended(
        extended(
            extended(
                extended(
                    e,
                    homography::image_of(inv, corners[0][0], corners[0][1]),
                    limit,
                ),
                homography::image_of(inv, corners[1][0], corners[1][1]),
                limit,
            ),
            homography::image_of(inv, corners[2][0], corners[2][1]),
            limit,
        ),
        homography::image_of(inv, corners[3][0], corners[3][1]),
        limit,
    )
}

/// What the first `n` frames cover on the wall.
pub open spec fn covered(chain: Seq<Mat3>, corners: Quad, limit: Double, n: int) -> Extent
    decreases n,
{
    if n <= 0 {
        no_extent()
    } else {
        extended_by_frame(
            covered(chain, corners, limit, n - 1),
            linalg::adjugate_inverse(chain[n - 1]),
            corners,
            limit,
        )
    }
}

/// An extent that can be rendered.
pub open spec fn is_usable(e: Extent) -> bool {
    e.min_x.finite() && e.min_y.finite() && e.min_x.less(e.max_x) && e.min_y.less(e.max_y)
}

/// The wall extent of a chain of frames, if none of its homographies is singular
/// and the extent can be rendered.
pub open spec fn extent_of(chain: Seq<Mat3>, corners: Quad, limit: Double) -> Option<Extent> {
    let e = covered(chain, corners, limit, chain.len() as int);
    if (exists|i: int| 0 <= i < chain.len() && linalg::is_singular(#[trigger] chain[i]))
        || !is_usable(e) {
        None
    } else {
        Some(e)
    }
}

fn extend(e: &Extent, p: &Option<(Double, Double)>, limit: &Double) -> (r: Extent)
    ensures
        r == extended(*e, *p, *limit),
{
    match p {
        None => *e,
        Some((x, y)) => {
            let cx: Double = clamp(*x, limit.negate(), *limit);
            let cy: Double = clamp(*y, limit.negate(), *limit);
            Extent {
                min_x: e.min_x.min(&cx),
                min_y: e.min_y.min(&cy),
                max_x: e.max_x.max(&cx),
                max_y: e.max_y.max(&cy),
            }
        },
    }
}

/// Union of the frames' footprints on the wall, if it can be rendered.
pub fn wall_extent(chain: &Vec<Mat3>, corners: &Quad, limit: &Double) -> (e: Option<Extent>)
    ensures
        e == extent_of(chain@, *corners, *limit),
{
    let mut e: Extent = Extent {
        min_x: Double::from_bits(0x7ff0_0000_0000_0000),
        min_y: Double::from_bits(0x7ff0_0000_0000_0000),
        max_x: Double::from_bits(0xfff0_0000_0000_0000),
        max_y: Double::from_bits(0xfff0_0000_0000_0000),
    };
    let mut i: usize = 0;
    while i < chain.len()
        invariant
            i <= chain@.len(),
            e == covered(chain@, *corners, *limit, i as int),
            forall|k: int| 0 <= k < i ==> !linalg::is_singular(#[trigger] chain@[k]),
        decreases chain@.len() - i,
    {
        let h: Homography = match mat3_inv(&chain[i]) {
            None => {
                return None;
            },
            Some(inv) => Homography(inv),
        };
        e = extend(&e, &h.apply(corners[0][0], corners[0][1]), limit);
        e = extend(&e, &h.apply(corners[1][0], corners[1][1]), limit);
        e = extend(&e, &h.apply(corners[2][0], corners[2][1]), limit);
        e = extend(&e, &h.apply(corners[3][0], corners[3][1]), limit);
        i = i + 1;
    }
    if e.min_x.is_finite() && e.min_y.is_finite() && e.min_x.lt(&e.max_x) && e.min_y.lt(&e.max_y) {
        Some(e)
    } else {
        None
    }
}

/// The corners of a frame in ideal px.
pub open spec fn frame_quad(dist: Distortion, w: int, h: int) -> Quad {
    let zero = Double { bits: 0 };
    let (fw, fh) = (double::whole(w), double::whole(h));
    [
        dist.undistorted([zero, zero]),
        dist.undistorted([fw, zero]),
        dist.undistorted([fw, fh]),
        dist.undistorted([zero, fh]),
    ]
}

/// The corners of a frame in ideal px.
pub fn frame_corners(dist: &Distortion, width: usize, height: usize) -> (q: Quad)
    requires
        width < 0x20_0000_0000_0000,
        height < 0x20_0000_0000_0000,
    ensures
        q == frame_quad(*dist, width as int, height as int),
{
    let zero: Double = Double::from_bits(0);
    let fw: Double = Double::from_count(width as u64);
    let fh: Double = Double::from_count(height as u64);
    [
        dist.undistort([zero, zero]),
        dist.undistort([fw, zero]),
        dist.undistort([fw, fh]),
        dist.undistort([zero, fh]),
    ]
}

/// Mean side length of a quad.
pub open spec fn mean_side(q: Quad) -> Double {
    (Double { bits: 0 } + chain::gap(q[0], q[1]) + chain::gap(q[1], q[2]) + chain::gap(q[2], q[3])
        + chain::gap(q[3], q[0])).per(Double { bits: FOUR })
}

/// Mean side length of a marker in the image.
pub fn mean_marker_side_px(q: &Quad) -> (side: Double)
    ensures
        side == mean_side(*q),
{
    (Double::from_bits(0) + chain::distance(&q[0], &q[1]) + chain::distance(&q[1], &q[2])
        + chain::distance(&q[2], &q[3]) + chain::distance(&q[3], &q[0])) / Double::from_bits(FOUR)
}

/// mm per output px: the marker's native detail, but no more output px than
/// allowed.
pub open spec fn resolution(
    e: Extent,
    side_mm: Double,
    side_px: Double,
    max_w: int,
    max_h: int,
) -> Double {
    double::larger(
        double::larger(
            side_mm.per(double::larger(side_px, Double { bits: ONE })),
            (e.max_x - e.min_x).per(double::whole(max_w)),
        ),
        (e.max_y - e.min_y).per(double::whole(max_h)),
    )
}

/// mm per output px.
pub fn output_resolution(
    e: &Extent,
    side_mm: &Double,
    side_px: &Double,
    max_w: usize,
    max_h: usize,
) -> (mm_per_px: Double)
    requires
        max_w < 0x20_0000_0000_0000,
        max_h < 0x20_0000_0000_0000,
    ensures
        mm_per_px == resolution(*e, *side_mm, *side_px, max_w as int, max_h as int),
{
    let native: Double = *side_mm / side_px.max(&Double::from_bits(ONE));
    native.max(&((e.max_x - e.min_x) / Double::from_count(max_w as u64))).max(
        &((e.max_y - e.min_y) / Double::from_count(max_h as u64)),
    )
}

/// `k` less a half.
pub open spec fn half_below(k: int) -> Double {
    double::whole(k) - Double { bits: ONE_HALF }
}

/// `n` is `d` rounded to the nearest whole number, halves up, and kept between
/// two bounds.
pub open spec fn is_rounded(d: Double, lo: int, hi: int, n: int) -> bool {
    &&& lo <= n <= hi
    &&& forall|k: int| lo < k <= n ==> #[trigger] half_below(k).at_most(d)
    &&& n < hi ==> !half_below(n + 1).at_most(d)
}

/// Round to the nearest whole number, halves up, kept between two bounds.
pub fn round_between(d: &Double, lo: usize, hi: usize) -> (n: usize)
    requires
        lo <= hi,
        hi < 0x20_0000_0000_0000,
    ensures
        is_rounded(*d, lo as int, hi as int, n as int),
{
    let half: Double = Double::from_bits(ONE_HALF);
    let mut n: usize = lo;
    while n < hi && (Double::from_count((n + 1) as u64) - half).le(d)
        invariant
            lo <= n <= hi,
            hi < 0x20_0000_0000_0000,
            half == (Double { bits: ONE_HALF }),
            forall|k: int| lo < k <= n ==> #[trigger] half_below(k).at_most(*d),
        decreases hi - n,
    {
        n = n + 1;
    }
    n
}

/// Pixels that an output has on a side that spans `mm`.
pub open spec fn is_output_side(mm: Double, mm_per_px: Double, max: int, n: int) -> bool {
    is_rounded(mm.per(mm_per_px), MIN_OUTPUT_PX as int, max, n)
}

/// Pixels that an output has on a side that spans `mm`.
pub fn output_side(mm: &Double, mm_per_px: &Double, max: usize) -> (n: usize)
    requires
        MIN_OUTPUT_PX <= max < 0x20_0000_0000_0000,
    ensures
        is_output_side(*mm, *mm_per_px, max as int, n as int),
        MIN_OUTPUT_PX <= n <= max,
{
    round_between(&(*mm / *mm_per_px), MIN_OUTPUT_PX, max)
}

/// Output pixels that a keyframe's footprint can reach, bounds included.
#[derive(Clone, Copy, Debug)]
pub struct Window {
    pub x0: usize,
    pub y0: usize,
    pub x1: usize,
    pub y1: usize,
}

impl Window {
    pub open spec fn holds(self, x: int, y: int) -> bool {
        self.x0 <= x <= self.x1 && self.y0 <= y <= self.y1
    }
}

/// A box that also holds the output position of a wall point.
pub open spec fn reached(
    b: Extent,
    p: Option<(Double, Double)>,
    e: Extent,
    mm_per_px: Double,
) -> Extent {
    match p {
        None => b,
        Some((x, y)) => {
            let px = (x - e.min_x).per(mm_per_px);
            let py = (y - e.min_y).per(mm_per_px);
            Extent {
                min_x: double::smaller(b.min_x, px),
                min_y: double::smaller(b.min_y, py),
                max_x: double::larger(b.max_x, px),
                max_y: double::larger(b.max_y, py),
            }
        },
    }
}

/// The box (output px) of a frame's corners on the wall. Homographies map the
/// frame quad to a quad, so that its corner box contains it.
pub open spec fn footprint(inv: Mat3, corners: Quad, e: Extent, mm_per_px: Double) -> Extent {
    reached(
        reached(
            reached(
                reached(
                    no_extent(),
                    homography::image_of(inv, corners[0][0], corners[0][1]),
                    e,
                    mm_per_px,
                ),
                homography::image_of(inv, corners[1][0], corners[1][1]),
                e,
                mm_per_px,
            ),
            homography::image_of(inv, corners[2][0], corners[2][1]),
            e,
            mm_per_px,
        ),
        homography::image_of(inv, corners[3][0], corners[3][1]),
        e,
        mm_per_px,
    )
}

/// `n` is the largest whole number from 0 to `hi` that does not exceed `d`, or 0.
pub open spec fn is_floor(d: Double, hi: int, n: int) -> bool {
    &&& 0 <= n <= hi
    &&& forall|k: int| 0 < k <= n ==> #[trigger] double::whole(k).at_most(d)
    &&& n < hi ==> !double::whole(n + 1).at_most(d)
}

/// `n` is the smallest whole number from 0 to `hi` that `d` does not exceed, or
/// `hi`.
pub open spec fn is_ceiling(d: Double, hi: int, n: int) -> bool {
    &&& 0 <= n <= hi
    &&& forall|k: int| 0 <= k < n ==> !d.at_most(#[trigger] double::whole(k))
    &&& n < hi ==> d.at_most(double::whole(n))
}

/// `w` holds the pixels of an output that a frame's footprint reaches; none for a
/// singular homography.
pub open spec fn is_window(
    h: Mat3,
    corners: Quad,
    e: Extent,
    mm_per_px: Double,
    out_w: int,
    out_h: int,
    w: Window,
) -> bool {
    if linalg::is_singular(h) {
        w.x1 < w.x0
    } else {
        let b = footprint(linalg::adjugate_inverse(h), corners, e, mm_per_px);
        &&& is_floor(b.min_x, out_w, w.x0 as int)
        &&& is_floor(b.min_y, out_h, w.y0 as int)
        &&& is_ceiling(b.max_x, out_w - 1, w.x1 as int)
        &&& is_ceiling(b.max_y, out_h - 1, w.y1 as int)
    }
}

fn reach(b: &Extent, p: &Option<(Double, Double)>, e: &Extent, mm_per_px: &Double) -> (r: Extent)
    ensures
        r == reached(*b, *p, *e, *mm_per_px),
{
    match p {
        None => *b,
        Some((x, y)) => {
            let px: Double = (*x - e.min_x) / *mm_per_px;
            let py: Double = (*y - e.min_y) / *mm_per_px;
            Extent {
                min_x: b.min_x.min(&px),
                min_y: b.min_y.min(&py),
                max_x: b.max_x.max(&px),
                max_y: b.max_y.max(&py),
            }
        },
    }
}

fn floor_below(d: &Double, hi: usize) -> (n: usize)
    requires
        hi < 0x20_0000_0000_0000,
    ensures
        is_floor(*d, hi as int, n as int),
{
    let mut n: usize = 0;
    while n < hi && Double::from_count((n + 1) as u64).le(d)
        invariant
            0 <= n <= hi,
            hi < 0x20_0000_0000_0000,
            forall|k: int| 0 < k <= n ==> #[trigger] double::whole(k).at_most(*d),
        decreases hi - n,
    {
        n = n + 1;
    }
    n
}

fn ceiling_below(d: &Double, hi: usize) -> (n: usize)
    requires
        hi < 0x20_0000_0000_0000,
    ensures
        is_ceiling(*d, hi as int, n as int),
{
    let mut n: usize = 0;
    while n < hi && !d.le(&Double::from_count(n as u64))
        invariant
            0 <= n <= hi,
            hi < 0x20_0000_0000_0000,
            forall|k: int| 0 <= k < n ==> !d.at_most(#[trigger] double::whole(k)),
        decreases hi - n,
    {
        n = n + 1;
    }
    n
}

/// Output pixels that a keyframe's footprint can reach.
pub fn footprint_window(
    h: &Mat3,
    corners: &Quad,
    e: &Extent,
    mm_per_px: &Double,
    out_w: usize,
    out_h: usize,
) -> (w: Window)
    requires
        0 < out_w < 0x20_0000_0000_0000,
        0 < out_h < 0x20_0000_0000_0000,
    ensures
        is_window(*h, *corners, *e, *mm_per_px, out_w as int, out_h as int, w),
{
    let inv: Homography = match mat3_inv(h) {
        None => {
            return Window { x0: 1, y0: 1, x1: 0, y1: 0 };
        },
        Some(inv) => Homography(inv),
    };
    let none: Extent = Extent {
        min_x: Double::from_bits(0x7ff0_0000_0000_0000),
        min_y: Double::from_bits(0x7ff0_0000_0000_0000),
        max_x: Double::from_bits(0xfff0_0000_0000_0000),
        max_y: Double::from_bits(0xfff0_0000_0000_0000),
    };
    let b: Extent = reach(&none, &inv.apply(corners[0][0], corners[0][1]), e, mm_per_px);
    let b: Extent = reach(&b, &inv.apply(corners[1][0], corners[1][1]), e, mm_per_px);
    let b: Extent = reach(&b, &inv.apply(corners[2][0], corners[2][1]), e, mm_per_px);
    let b: Extent = reach(&b, &inv.apply(corners[3][0], corners[3][1]), e, mm_per_px);
    Window {
        x0: floor_below(&b.min_x, out_w),
        y0: floor_below(&b.min_y, out_h),
        x1: ceiling_below(&b.max_x, out_w - 1),
        y1: ceiling_below(&b.max_y, out_h - 1),
    }
}

/// Rank of what is infinitely far: the bits of infinity.
pub const NOWHERE: u64 = 0x7ff0_0000_0000_0000;

/// How far each keyframe looks from the wall position of an output pixel; smaller
/// is nearer.
pub type Ranks = spec_fn(int, int, int) -> Double;

/// The colour of an output pixel in each keyframe, if it covers it.
pub type Colours = spec_fn(int, int, int) -> Option<[u8; 3]>;

/// `rank` and `colour` answer for each of `n` keyframes and every output pixel.
pub open spec fn are_painters<
    R: Fn(usize, usize, usize) -> Double,
    C: Fn(usize, usize, usize) -> Option<[u8; 3]>,
>(rank: &R, colour: &C, n: int, out_w: int, out_h: int) -> bool {
    &&& forall|i: usize, x: usize, y: usize|
        i < n && x < out_w && y < out_h ==> #[trigger] call_requires(rank, (i, x, y))
    &&& forall|i: usize, x: usize, y: usize|
        i < n && x < out_w && y < out_h ==> #[trigger] call_requires(colour, (i, x, y))
}

/// `rank` and `colour` compute `r` and `c`.
pub open spec fn paint<
    R: Fn(usize, usize, usize) -> Double,
    C: Fn(usize, usize, usize) -> Option<[u8; 3]>,
>(rank: &R, colour: &C, r: Ranks, c: Colours) -> bool {
    &&& forall|i: usize, x: usize, y: usize, v: Double| #[trigger]
        call_ensures(rank, (i, x, y), v) ==> v == r(i as int, x as int, y as int)
    &&& forall|i: usize, x: usize, y: usize, v: Option<[u8; 3]>| #[trigger]
        call_ensures(colour, (i, x, y), v) ==> v == c(i as int, x as int, y as int)
}

/// Rank and colour of an output pixel after the first `n` keyframes: the nearest
/// that covers it, the first of those that are equally near.
pub open spec fn nearest(
    r: Ranks,
    c: Colours,
    windows: Seq<Window>,
    x: int,
    y: int,
    n: int,
) -> (Double, Option<[u8; 3]>)
    decreases n,
{
    if n <= 0 {
        (Double { bits: NOWHERE }, None)
    } else {
        let (best, found) = nearest(r, c, windows, x, y, n - 1);
        let here = r(n - 1, x, y);
        if windows[n - 1].holds(x, y) && !best.at_most(here) && c(n - 1, x, y) is Some {
            (here, c(n - 1, x, y))
        } else {
            (best, found)
        }
    }
}

/// The colour that a pixel is painted.
pub open spec fn painted(found: Option<[u8; 3]>) -> [u8; 3] {
    match found {
        Some(c) => c,
        None => UNCOVERED,
    }
}

/// Pixel `p` of an RGBA buffer has this colour, and is opaque.
pub open spec fn has_colour(rgba: Seq<u8>, p: int, c: [u8; 3]) -> bool {
    rgba[4 * p] == c[0] && rgba[4 * p + 1] == c[1] && rgba[4 * p + 2] == c[2] && rgba[4 * p + 3]
        == 255
}

fn nearest_colour<
    R: Fn(usize, usize, usize) -> Double,
    C: Fn(usize, usize, usize) -> Option<[u8; 3]>,
>(
    rank: &R,
    colour: &C,
    windows: &Vec<Window>,
    x: usize,
    y: usize,
    Ghost(out_w): Ghost<int>,
    Ghost(out_h): Ghost<int>,
) -> (found: Option<[u8; 3]>)
    requires
        are_painters(rank, colour, windows@.len() as int, out_w, out_h),
        x < out_w,
        y < out_h,
    ensures
        forall|r: Ranks, c: Colours| #[trigger]
            paint(rank, colour, r, c) ==> found == nearest(
                r,
                c,
                windows@,
                x as int,
                y as int,
                windows@.len() as int,
            ).1,
{
    let mut best: Double = Double::from_bits(NOWHERE);
    let mut found: Option<[u8; 3]> = None;
    let mut i: usize = 0;
    while i < windows.len()
        invariant
            are_painters(rank, colour, windows@.len() as int, out_w, out_h),
            x < out_w,
            y < out_h,
            i <= windows@.len(),
            forall|r: Ranks, c: Colours| #[trigger]
                paint(rank, colour, r, c) ==> (best, found) == nearest(
                    r,
                    c,
                    windows@,
                    x as int,
                    y as int,
                    i as int,
                ),
        decreases windows@.len() - i,
    {
        let w: Window = windows[i];
        if w.x0 <= x && x <= w.x1 && w.y0 <= y && y <= w.y1 {
            let here: Double = rank(i, x, y);
            proof {
                assert(call_ensures(rank, (i, x, y), here));
            }
            if !best.le(&here) {
                let shown: Option<[u8; 3]> = colour(i, x, y);
                proof {
                    assert(call_ensures(colour, (i, x, y), shown));
                }
                if shown.is_some() {
                    best = here;
                    found = shown;
                }
            }
        }
        i = i + 1;
    }
    found
}

/// `rgba` shows each output pixel as the nearest covering keyframe does.
pub open spec fn is_mosaic(
    rgba: Seq<u8>,
    r: Ranks,
    c: Colours,
    windows: Seq<Window>,
    out_w: int,
    out_h: int,
) -> bool {
    &&& rgba.len() == 4 * (out_w * out_h)
    &&& forall|p: int|
        0 <= p < out_w * out_h ==> #[trigger] has_colour(
            rgba,
            p,
            painted(nearest(r, c, windows, p % out_w, p / out_w, windows.len() as int).1),
        )
}

/// Pick-best-source stitch, Voronoi style: each output pixel is rendered from
/// the covering keyframe whose view centre is nearest on the wall. `windows[i]`
/// holds the output pixels that keyframe i can reach; `rank` says how far it is
/// from an output pixel, `colour` what it shows there, if it covers it.
pub fn stitch<
    R: Fn(usize, usize, usize) -> Double,
    C: Fn(usize, usize, usize) -> Option<[u8; 3]>,
>(rank: &R, colour: &C, windows: &Vec<Window>, out_w: usize, out_h: usize) -> (rgba: Vec<u8>)
    requires
        are_painters(rank, colour, windows@.len() as int, out_w as int, out_h as int),
        out_w * out_h * 4 <= usize::MAX,
    ensures
        forall|r: Ranks, c: Colours| #[trigger]
            paint(rank, colour, r, c) ==> is_mosaic(
                rgba@,
                r,
                c,
                windows@,
                out_w as int,
                out_h as int,
            ),
{
    let mut rgba: Vec<u8> = Vec::new();
    let total: usize = out_w * out_h;
    let mut p: usize = 0;
    while p < total
        invariant
            are_painters(rank, colour, windows@.len() as int, out_w as int, out_h as int),
            total == out_w * out_h,
            total * 4 <= usize::MAX,
            p <= total,
            rgba@.len() == 4 * p,
            forall|r: Ranks, c: Colours, q: int|
                #![trigger paint(rank, colour, r, c), rgba@[4 * q]]
                paint(rank, colour, r, c) && 0 <= q < p ==> has_colour(
                    rgba@,
                    q,
                    painted(
                        nearest(
                            r,
                            c,
                            windows@,
                            q % (out_w as int),
                            q / (out_w as int),
                            windows@.len() as int,
                        ).1,
                    ),
                ),
        decreases total - p,
    {
        assert(out_w > 0) by (nonlinear_arith)
            requires
                out_w * out_h > 0,
                out_w >= 0,
                out_h >= 0,
        ;
        proof {
            crate::plane::lemma_index_unsplit(out_w as int, out_h as int, p as int);
        }
        let x: usize = p % out_w;
        let y: usize = p / out_w;
        let found: Option<[u8; 3]> = nearest_colour(
            rank,
            colour,
            windows,
            x,
            y,
            Ghost(out_w as int),
            Ghost(out_h as int),
        );
        let c: [u8; 3] = match found {
            Some(c) => c,
            None => UNCOVERED,
        };
        let ghost before = rgba@;
        rgba.push(c[0]);
        rgba.push(c[1]);
        rgba.push(c[2]);
        rgba.push(255);
        proof {
            assert forall|r: Ranks, k: Colours, q: int|
                #![trigger paint(rank, colour, r, k), rgba@[4 * q]]
                paint(rank, colour, r, k) && 0 <= q < p + 1 implies has_colour(
                rgba@,
                q,
                painted(
                    nearest(
                        r,
                        k,
                        windows@,
                        q % (out_w as int),
                        q / (out_w as int),
                        windows@.len() as int,
                    ).1,
                ),
            ) by {
                if q < p {
                    assert(rgba@[4 * q] == before[4 * q]);
                }
            }
        }
        p = p + 1;
    }
    proof {
        assert forall|r: Ranks, c: Colours| #[trigger] paint(rank, colour, r, c) implies is_mosaic(
            rgba@,
            r,
            c,
            windows@,
            out_w as int,
            out_h as int,
        ) by {
            assert forall|q: int| 0 <= q < out_w * out_h implies #[trigger] has_colour(
                rgba@,
                q,
                painted(
                    nearest(
                        r,
                        c,
                        windows@,
                        q % (out_w as int),
                        q / (out_w as int),
                        windows@.len() as int,
                    ).1,
                ),
            ) by {
                let first = rgba@[4 * q];
            }
        }
    }
    rgba
}

/// Where on the wall the centre of an output pixel is.
pub open spec fn pixel_centre(origin: Point, mm_per_px: Double, x: int, y: int) -> Point {
    let half = Double { bits: ONE_HALF };
    [
        origin[0] + (double::whole(x) + half) * mm_per_px,
        origin[1] + (double::whole(y) + half) * mm_per_px,
    ]
}

/// What a frame shows of a point of the wall, if it covers it.
pub open spec fn warped(rgba: Seq<u8>, w: int, h: int, hom: Mat3, p: Point) -> Option<[u8; 3]> {
    match homography::image_of(hom, p[0], p[1]) {
        Some((sx, sy)) => sample::colour_at(rgba, w, h, sx, sy),
        None => None,
    }
}

/// `out` is the `out_w` x `out_h` output rendered from one frame by inverse
/// warp.
pub open spec fn is_warp(
    out: Seq<u8>,
    rgba: Seq<u8>,
    w: int,
    h: int,
    hom: Mat3,
    origin: Point,
    mm_per_px: Double,
    out_w: int,
    out_h: int,
) -> bool {
    &&& out.len() == 4 * (out_w * out_h)
    &&& forall|p: int|
        0 <= p < out_w * out_h ==> #[trigger] has_colour(
            out,
            p,
            painted(
                warped(rgba, w, h, hom, pixel_centre(origin, mm_per_px, p % out_w, p / out_w)),
            ),
        )
}

/// Render an output from one frame: inverse warp with bilinear sampling. `hom`
/// takes the wall (mm) to the frame (px); `origin` is where on the wall the
/// output starts.
pub fn render(
    rgba: &[u8],
    width: usize,
    height: usize,
    hom: &Homography,
    origin: &Point,
    mm_per_px: &Double,
    out_w: usize,
    out_h: usize,
) -> (out: Vec<u8>)
    requires
        0 < width < 0x20_0000_0000_0000,
        0 < height < 0x20_0000_0000_0000,
        rgba@.len() == width * height * 4,
        out_w <= 0x1_0000,
        out_h <= 0x1_0000,
        out_w * out_h * 4 <= usize::MAX,
    ensures
        is_warp(
            out@,
            rgba@,
            width as int,
            height as int,
            hom.0,
            *origin,
            *mm_per_px,
            out_w as int,
            out_h as int,
        ),
{
    let ghost (w, h) = (width as int, height as int);
    let half: Double = Double::from_bits(ONE_HALF);
    let mut out: Vec<u8> = Vec::new();
    let total: usize = out_w * out_h;
    let mut p: usize = 0;
    while p < total
        invariant
            0 < width < 0x20_0000_0000_0000,
            0 < height < 0x20_0000_0000_0000,
            w == width,
            h == height,
            rgba@.len() == width * height * 4,
            out_w <= 0x1_0000,
            out_h <= 0x1_0000,
            half == (Double { bits: ONE_HALF }),
            total == out_w * out_h,
            total * 4 <= usize::MAX,
            p <= total,
            out@.len() == 4 * p,
            forall|q: int|
                0 <= q < p ==> #[trigger] has_colour(
                    out@,
                    q,
                    painted(
                        warped(
                            rgba@,
                            w,
                            h,
                            hom.0,
                            pixel_centre(
                                *origin,
                                *mm_per_px,
                                q % (out_w as int),
                                q / (out_w as int),
                            ),
                        ),
                    ),
                ),
        decreases total - p,
    {
        assert(out_w > 0) by (nonlinear_arith)
            requires
                out_w * out_h > 0,
                out_w >= 0,
                out_h >= 0,
        ;
        proof {
            crate::plane::lemma_index_unsplit(out_w as int, out_h as int, p as int);
        }
        let x: usize = p % out_w;
        let y: usize = p / out_w;
        let wx: Double = origin[0] + (Double::from_count(x as u64) + half) * *mm_per_px;
        let wy: Double = origin[1] + (Double::from_count(y as u64) + half) * *mm_per_px;
        let found: Option<[u8; 3]> = match hom.apply(wx, wy) {
            Some((sx, sy)) => sample_rgb(rgba, width, height, sx, sy),
            None => None,
        };
        let c: [u8; 3] = match found {
            Some(c) => c,
            None => UNCOVERED,
        };
        let ghost before = out@;
        out.push(c[0]);
        out.push(c[1]);
        out.push(c[2]);
        out.push(255);
        proof {
            assert forall|q: int| 0 <= q < p + 1 implies #[trigger] has_colour(
                out@,
                q,
                painted(
                    warped(
                        rgba@,
                        w,
                        h,
                        hom.0,
                        pixel_centre(*origin, *mm_per_px, q % (out_w as int), q / (out_w as int)),
                    ),
                ),
            ) by {
                if q < p {
                    assert(has_colour(
                        before,
                        q,
                        painted(
                            warped(
                                rgba@,
                                w,
                                h,
                                hom.0,
                                pixel_centre(
                                    *origin,
                                    *mm_per_px,
                                    q % (out_w as int),
                                    q / (out_w as int),
                                ),
                            ),
                        ),
                    ));
                }
            }
        }
        p = p + 1;
    }
    out
}

/// Every output pixel comes from the nearest keyframe that covers it, or is left
/// uncovered when none does.
pub proof fn law_nearest_covering_keyframe_wins(
    r: Ranks,
    c: Colours,
    windows: Seq<Window>,
    x: int,
    y: int,
    n: int,
)
    requires
        0 <= n <= windows.len(),
        forall|i: int| 0 <= i < n ==> (#[trigger] r(i, x, y)).finite(),
    ensures
        ({
            let (best, found) = nearest(r, c, windows, x, y, n);
            &&& forall|i: int|
                0 <= i < n && (#[trigger] windows[i]).holds(x, y) && c(i, x, y) is Some
                    ==> best.at_most(r(i, x, y))
            &&& found is None ==> best == (Double { bits: NOWHERE }) && forall|i: int|
                0 <= i < n && (#[trigger] windows[i]).holds(x, y) ==> c(i, x, y) is None
            &&& found is Some ==> exists|i: int|
                0 <= i < n && (#[trigger] windows[i]).holds(x, y) && c(i, x, y) == found && r(
                    i,
                    x,
                    y,
                ) == best
        }),
    decreases n,
{
    if n > 0 {
        law_nearest_covering_keyframe_wins(r, c, windows, x, y, n - 1);
        let (before, found) = nearest(r, c, windows, x, y, n - 1);
        let here = r(n - 1, x, y);
        assert(here.finite());
        if found is None {
            lemma_finite_is_somewhere(here);
        }
    }
}

proof fn lemma_finite_is_somewhere(d: Double)
    requires
        d.finite(),
    ensures
        !(Double { bits: NOWHERE }).at_most(d),
{
    magnitude::lemma_units_increase(d.magnitude(), NOWHERE as int);
    magnitude::lemma_units_nonnegative(d.magnitude());
}

} // verus!
