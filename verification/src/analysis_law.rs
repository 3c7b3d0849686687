//! What reading a luma plane promises: every pixel counts where it lies, a mask follows
//! the surroundings of a pixel, and sharpness is the mean squared gradient.
use vstd::prelude::*;

use crate::analysis;
use crate::coach::Thumb;
use crate::double;
use crate::double::Double;
use crate::frame;
use crate::order;
use crate::overlap;
use crate::plane;
use crate::rounding;
use crate::threshold;

verus! {

/// `gray` holds `v` everywhere.
pub open spec fn is_uniform(gray: Seq<u8>, w: int, h: int, v: int) -> bool {
    forall|x: int, y: int|
        plane::in_plane(w, h, x, y) ==> #[trigger] gray[plane::index_of(w, x, y)] == v
}

/// Plane `b` is plane `a`, but for pixel (x, y), which is brighter by `d`.
pub open spec fn differs_at(a: Seq<u8>, b: Seq<u8>, w: int, h: int, x: int, y: int, d: int) -> bool {
    &&& plane::in_plane(w, h, x, y)
    &&& forall|x1: int, y1: int|
        plane::in_plane(w, h, x1, y1) ==> #[trigger] b[plane::index_of(w, x1, y1)]
            == a[plane::index_of(w, x1, y1)] + (if x1 == x && y1 == y {
            d
        } else {
            0
        })
}

/// The first pixel comes first, the next pixel of a row comes next, and a row follows the
/// row above it.
pub proof fn law_pixels_are_stored_row_by_row(w: int, x: int, y: int)
    ensures
        plane::index_of(w, 0, 0) == 0,
        plane::index_of(w, x + 1, y) == plane::index_of(w, x, y) + 1,
        plane::index_of(w, 0, y + 1) == plane::index_of(w, w - 1, y) + 1,
{
    assert(0 * w == 0 && (y + 1) * w == y * w + w) by (nonlinear_arith);
}

proof fn lemma_row(
    a: Seq<u8>,
    b: Seq<u8>,
    w: int,
    h: int,
    x: int,
    y: int,
    d: int,
    row: int,
    x0: int,
    x1: int,
)
    requires
        differs_at(a, b, w, h, x, y, d),
        0 <= row < h,
        0 <= x0 <= x1 <= w,
    ensures
        threshold::row_sum(b, w, row, x0, x1) == threshold::row_sum(a, w, row, x0, x1) + (if row
            == y && x0 <= x < x1 {
            d
        } else {
            0
        }),
    decreases x1 - x0,
{
    if x0 < x1 {
        lemma_row(a, b, w, h, x, y, d, row, x0, x1 - 1);
        assert(b[plane::index_of(w, x1 - 1, row)] == a[plane::index_of(w, x1 - 1, row)] + (if x1
            - 1 == x && row == y {
            d
        } else {
            0
        }));
    }
}

/// Every pixel of a box counts once in its sum, and no other pixel does.
pub proof fn law_box_counts_its_pixels(
    a: Seq<u8>,
    b: Seq<u8>,
    w: int,
    h: int,
    x: int,
    y: int,
    d: int,
    x0: int,
    x1: int,
    y0: int,
    y1: int,
)
    requires
        differs_at(a, b, w, h, x, y, d),
        0 <= x0 <= x1 <= w,
        0 <= y0 <= y1 <= h,
    ensures
        threshold::box_sum(b, w, x0, x1, y0, y1) == threshold::box_sum(a, w, x0, x1, y0, y1) + (
        if x0 <= x < x1 && y0 <= y < y1 {
            d
        } else {
            0
        }),
    decreases y1 - y0,
{
    if y0 < y1 {
        law_box_counts_its_pixels(a, b, w, h, x, y, d, x0, x1, y0, y1 - 1);
        lemma_row(a, b, w, h, x, y, d, y1 - 1, x0, x1);
    }
}

proof fn lemma_uniform_row(gray: Seq<u8>, w: int, h: int, v: int, row: int, x0: int, x1: int)
    requires
        is_uniform(gray, w, h, v),
        0 <= row < h,
        0 <= x0 <= x1 <= w,
    ensures
        threshold::row_sum(gray, w, row, x0, x1) == v * (x1 - x0),
    decreases x1 - x0,
{
    if x0 < x1 {
        lemma_uniform_row(gray, w, h, v, row, x0, x1 - 1);
        assert(gray[plane::index_of(w, x1 - 1, row)] == v);
        assert(v * (x1 - 1 - x0) + v == v * (x1 - x0)) by (nonlinear_arith);
    } else {
        assert(v * 0 == 0);
    }
}

proof fn lemma_uniform_box(
    gray: Seq<u8>,
    w: int,
    h: int,
    v: int,
    x0: int,
    x1: int,
    y0: int,
    y1: int,
)
    requires
        is_uniform(gray, w, h, v),
        0 <= x0 <= x1 <= w,
        0 <= y0 <= y1 <= h,
    ensures
        threshold::box_sum(gray, w, x0, x1, y0, y1) == v * ((x1 - x0) * (y1 - y0)),
    decreases y1 - y0,
{
    if y0 < y1 {
        lemma_uniform_box(gray, w, h, v, x0, x1, y0, y1 - 1);
        lemma_uniform_row(gray, w, h, v, y1 - 1, x0, x1);
        let n = x1 - x0;
        assert(v * (n * (y1 - 1 - y0)) + v * n == v * (n * (y1 - y0))) by (nonlinear_arith);
    } else {
        assert(v * ((x1 - x0) * (y1 - y0)) == 0) by (nonlinear_arith)
            requires
                y1 == y0,
        ;
    }
}

/// A block of a frame side that is divided into `n` blocks.
proof fn lemma_block(side: int, n: int, t: int, c: int)
    requires
        0 < n <= side,
        0 <= t < n,
        0 <= c < side,
    ensures
        0 < side / n,
        0 <= t * (side / n),
        t * (side / n) + side / n <= side,
        (t * (side / n) <= c < t * (side / n) + side / n) == (c / (side / n) == t),
{
    let b = side / n;
    vstd::arithmetic::div_mod::lemma_fundamental_div_mod(side, n);
    let r = side % n;
    if b <= 0 {
        assert(n * b <= 0) by (nonlinear_arith)
            requires
                b <= 0,
                0 < n,
        ;
    }
    assert(0 <= t * b && t * b + b <= n * b) by (nonlinear_arith)
        requires
            0 <= t < n,
            0 < b,
    ;
    vstd::arithmetic::div_mod::lemma_fundamental_div_mod(c, b);
    let (q, e) = (c / b, c % b);
    if q == t {
        assert(t * b == b * q) by (nonlinear_arith)
            requires
                q == t,
        ;
    } else if t * b <= c < t * b + b {
        assert(q == t) by (nonlinear_arith)
            requires
                c == b * q + e,
                0 <= e < b,
                t * b <= c < t * b + b,
        ;
    }
}

/// A pixel of the frame counts in the thumbnail pixel whose block it lies in, and in no
/// other.
pub proof fn law_thumbnail_pixel_sums_its_block(
    a: Seq<u8>,
    b: Seq<u8>,
    w: int,
    h: int,
    x: int,
    y: int,
    d: int,
    tx: int,
    ty: int,
)
    requires
        differs_at(a, b, w, h, x, y, d),
        plane::in_plane(analysis::thumb_side(w), analysis::thumb_side(h), tx, ty),
    ensures
        ({
            let (tw, th) = (analysis::thumb_side(w), analysis::thumb_side(h));
            analysis::block_sum(b, w, h, tw, th, tx, ty) == analysis::block_sum(
                a,
                w,
                h,
                tw,
                th,
                tx,
                ty,
            ) + (if x / (w / tw) == tx && y / (h / th) == ty {
                d
            } else {
                0
            })
        }),
{
    let (tw, th) = (analysis::thumb_side(w), analysis::thumb_side(h));
    lemma_block(w, tw, tx, x);
    lemma_block(h, th, ty, y);
    let (bx, by) = (w / tw, h / th);
    law_box_counts_its_pixels(
        a,
        b,
        w,
        h,
        x,
        y,
        d,
        tx * bx,
        tx * bx + bx,
        ty * by,
        ty * by + by,
    );
}

/// A thumbnail side is an eighth of the frame side, and at least one.
pub proof fn law_thumbnail_is_an_eighth(side: int)
    requires
        side > 0,
    ensures
        analysis::thumb_side(side) >= 1,
        side >= 8 ==> 8 * analysis::thumb_side(side) <= side < 8 * analysis::thumb_side(side) + 8,
        side < 8 ==> analysis::thumb_side(side) == 1,
{
}

/// The thumbnail of a uniform frame is as bright as the frame: each sum holds that luma
/// as many times as the block has pixels.
pub proof fn law_thumbnail_of_a_uniform_frame(
    thumb: Thumb,
    gray: Seq<u8>,
    w: int,
    h: int,
    v: int,
    tx: int,
    ty: int,
)
    requires
        w > 0,
        h > 0,
        is_uniform(gray, w, h, v),
        analysis::is_downscaled(
            thumb,
            gray,
            w,
            h,
            analysis::thumb_side(w),
            analysis::thumb_side(h),
        ),
        plane::in_plane(analysis::thumb_side(w), analysis::thumb_side(h), tx, ty),
    ensures
        thumb.sums@[plane::index_of(analysis::thumb_side(w), tx, ty)] == v * thumb.area,
{
    let (tw, th) = (analysis::thumb_side(w), analysis::thumb_side(h));
    lemma_block(w, tw, tx, 0);
    lemma_block(h, th, ty, 0);
    let (bx, by) = (w / tw, h / th);
    lemma_uniform_box(gray, w, h, v, tx * bx, tx * bx + bx, ty * by, ty * by + by);
    assert(thumb.sums@[plane::index_of(tw, tx, ty)] == analysis::block_sum(
        gray,
        w,
        h,
        tw,
        th,
        tx,
        ty,
    ));
}

/// Pixel (x1, y1) is near enough to (x, y) to count in its surroundings.
pub open spec fn is_near(w: int, h: int, x: int, y: int, x1: int, y1: int) -> bool {
    let r = threshold::window_radius(w, h);
    plane::in_plane(w, h, x1, y1) && x - r <= x1 <= x + r && y - r <= y1 <= y + r
}

proof fn lemma_row_at_most(
    gray: Seq<u8>,
    w: int,
    h: int,
    x: int,
    y: int,
    v: int,
    row: int,
    x0: int,
    x1: int,
)
    requires
        forall|c: int, r: int|
            is_near(w, h, x, y, c, r) ==> #[trigger] gray[plane::index_of(w, c, r)] <= v,
        0 <= x0 <= x1 <= w,
        forall|c: int| x0 <= c < x1 ==> #[trigger] is_near(w, h, x, y, c, row),
    ensures
        threshold::row_sum(gray, w, row, x0, x1) <= v * (x1 - x0),
    decreases x1 - x0,
{
    if x0 < x1 {
        lemma_row_at_most(gray, w, h, x, y, v, row, x0, x1 - 1);
        assert(is_near(w, h, x, y, x1 - 1, row));
        assert(gray[plane::index_of(w, x1 - 1, row)] <= v);
        assert(v * (x1 - 1 - x0) + v == v * (x1 - x0)) by (nonlinear_arith);
    } else {
        assert(v * 0 == 0);
    }
}

proof fn lemma_box_at_most(
    gray: Seq<u8>,
    w: int,
    h: int,
    x: int,
    y: int,
    v: int,
    x0: int,
    x1: int,
    y0: int,
    y1: int,
)
    requires
        forall|c: int, r: int|
            is_near(w, h, x, y, c, r) ==> #[trigger] gray[plane::index_of(w, c, r)] <= v,
        0 <= x0 <= x1 <= w,
        y0 <= y1,
        forall|c: int, r: int|
            x0 <= c < x1 && y0 <= r < y1 ==> #[trigger] is_near(w, h, x, y, c, r),
    ensures
        threshold::box_sum(gray, w, x0, x1, y0, y1) <= v * ((y1 - y0) * (x1 - x0)),
    decreases y1 - y0,
{
    if y0 < y1 {
        lemma_box_at_most(gray, w, h, x, y, v, x0, x1, y0, y1 - 1);
        lemma_row_at_most(gray, w, h, x, y, v, y1 - 1, x0, x1);
        let n = x1 - x0;
        assert(v * ((y1 - 1 - y0) * n) + v * n == v * ((y1 - y0) * n)) by (nonlinear_arith);
    } else {
        assert(v * ((y1 - y0) * (x1 - x0)) == 0) by (nonlinear_arith)
            requires
                y1 == y0,
        ;
    }
}

proof fn lemma_window(w: int, h: int, x: int, y: int)
    requires
        plane::in_plane(w, h, x, y),
    ensures
        ({
            let r = threshold::window_radius(w, h);
            let (x0, x1) = (threshold::window_start(x, r), threshold::window_end(x, r, w));
            let (y0, y1) = (threshold::window_start(y, r), threshold::window_end(y, r, h));
            &&& 0 <= x0 <= x < x1 <= w
            &&& 0 <= y0 <= y < y1 <= h
            &&& (y1 - y0) * (x1 - x0) > 0
            &&& forall|c: int, k: int|
                (x0 <= c < x1 && y0 <= k < y1) == #[trigger] is_near(w, h, x, y, c, k)
        }),
{
    let r = threshold::window_radius(w, h);
    let (x0, x1) = (threshold::window_start(x, r), threshold::window_end(x, r, w));
    let (y0, y1) = (threshold::window_start(y, r), threshold::window_end(y, r, h));
    assert((y1 - y0) * (x1 - x0) > 0) by (nonlinear_arith)
        requires
            y1 > y0,
            x1 > x0,
    ;
}

/// A pixel that counts as dark has a pixel near it that is at least eight levels brighter.
pub proof fn law_dark_pixel_has_brighter_surroundings(
    gray: Seq<u8>,
    w: int,
    h: int,
    x: int,
    y: int,
)
    requires
        plane::in_plane(w, h, x, y),
        threshold::is_below_mean(gray, w, h, x, y),
    ensures
        exists|c: int, r: int|
            is_near(w, h, x, y, c, r) && #[trigger] gray[plane::index_of(w, c, r)]
                >= gray[plane::index_of(w, x, y)] + 8,
{
    lemma_window(w, h, x, y);
    let r = threshold::window_radius(w, h);
    let (x0, x1) = (threshold::window_start(x, r), threshold::window_end(x, r, w));
    let (y0, y1) = (threshold::window_start(y, r), threshold::window_end(y, r, h));
    let v = gray[plane::index_of(w, x, y)] + 7;
    let n = (y1 - y0) * (x1 - x0);
    if forall|c: int, k: int|
        is_near(w, h, x, y, c, k) ==> #[trigger] gray[plane::index_of(w, c, k)] <= v {
        lemma_box_at_most(gray, w, h, x, y, v, x0, x1, y0, y1);
        let s = threshold::box_sum(gray, w, x0, x1, y0, y1);
        vstd::arithmetic::div_mod::lemma_fundamental_div_mod(s, n);
        let (q, e) = (s / n, s % n);
        assert(q <= v) by (nonlinear_arith)
            requires
                s == n * q + e,
                e >= 0,
                s <= v * n,
                n > 0,
        ;
    }
}

proof fn lemma_row_at_least(
    a: Seq<u8>,
    b: Seq<u8>,
    w: int,
    h: int,
    x: int,
    y: int,
    row: int,
    x0: int,
    x1: int,
)
    requires
        forall|c: int, r: int|
            is_near(w, h, x, y, c, r) ==> #[trigger] b[plane::index_of(w, c, r)]
                >= a[plane::index_of(w, c, r)],
        forall|c: int| x0 <= c < x1 ==> #[trigger] is_near(w, h, x, y, c, row),
    ensures
        threshold::row_sum(a, w, row, x0, x1) <= threshold::row_sum(b, w, row, x0, x1),
    decreases x1 - x0,
{
    if x0 < x1 {
        lemma_row_at_least(a, b, w, h, x, y, row, x0, x1 - 1);
        assert(is_near(w, h, x, y, x1 - 1, row));
        assert(b[plane::index_of(w, x1 - 1, row)] >= a[plane::index_of(w, x1 - 1, row)]);
    }
}

proof fn lemma_box_at_least(
    a: Seq<u8>,
    b: Seq<u8>,
    w: int,
    h: int,
    x: int,
    y: int,
    x0: int,
    x1: int,
    y0: int,
    y1: int,
)
    requires
        forall|c: int, r: int|
            is_near(w, h, x, y, c, r) ==> #[trigger] b[plane::index_of(w, c, r)]
                >= a[plane::index_of(w, c, r)],
        forall|c: int, r: int|
            x0 <= c < x1 && y0 <= r < y1 ==> #[trigger] is_near(w, h, x, y, c, r),
    ensures
        threshold::box_sum(a, w, x0, x1, y0, y1) <= threshold::box_sum(b, w, x0, x1, y0, y1),
    decreases y1 - y0,
{
    if y0 < y1 {
        lemma_box_at_least(a, b, w, h, x, y, x0, x1, y0, y1 - 1);
        lemma_row_at_least(a, b, w, h, x, y, y1 - 1, x0, x1);
    }
}

/// A dark pixel stays dark where nothing near it gets darker and the pixel itself stays as
/// it is: what is farther away does not count.
pub proof fn law_brighter_surroundings_keep_a_pixel_dark(
    a: Seq<u8>,
    b: Seq<u8>,
    w: int,
    h: int,
    x: int,
    y: int,
)
    requires
        plane::in_plane(w, h, x, y),
        threshold::is_below_mean(a, w, h, x, y),
        forall|c: int, r: int|
            is_near(w, h, x, y, c, r) ==> #[trigger] b[plane::index_of(w, c, r)]
                >= a[plane::index_of(w, c, r)],
        b[plane::index_of(w, x, y)] == a[plane::index_of(w, x, y)],
    ensures
        threshold::is_below_mean(b, w, h, x, y),
{
    lemma_window(w, h, x, y);
    let r = threshold::window_radius(w, h);
    let (x0, x1) = (threshold::window_start(x, r), threshold::window_end(x, r, w));
    let (y0, y1) = (threshold::window_start(y, r), threshold::window_end(y, r, h));
    lemma_box_at_least(a, b, w, h, x, y, x0, x1, y0, y1);
    vstd::arithmetic::div_mod::lemma_div_is_ordered(
        threshold::box_sum(a, w, x0, x1, y0, y1),
        threshold::box_sum(b, w, x0, x1, y0, y1),
        (y1 - y0) * (x1 - x0),
    );
}

/// How far the surroundings of a pixel reach: a twelfth of the shorter side, and at least
/// seven pixels.
pub proof fn law_surroundings_follow_the_shorter_side(w: int, h: int)
    requires
        w > 0,
        h > 0,
    ensures
        ({
            let r = threshold::window_radius(w, h);
            &&& r >= 7
            &&& r == 7 || (12 * r <= w && 12 * r <= h)
            &&& 12 * r + 12 > w || 12 * r + 12 > h
            &&& threshold::window_radius(h, w) == r
        }),
{
}

/// Plane `b` shows what plane `a` shows, inverted.
pub open spec fn is_inverted(a: Seq<u8>, b: Seq<u8>, w: int, h: int) -> bool {
    forall|x: int, y: int|
        plane::in_plane(w, h, x, y) ==> #[trigger] frame::px(b, w, x, y) == 255 - frame::px(
            a,
            w,
            x,
            y,
        )
}

proof fn lemma_inverted_row(a: Seq<u8>, b: Seq<u8>, w: int, h: int, y: int, k: int)
    requires
        is_inverted(a, b, w, h),
        1 <= y < h - 1,
        2 * k <= w - 1,
    ensures
        analysis::row_energy(b, w, y, k) == analysis::row_energy(a, w, y, k),
    decreases k,
{
    if k > 0 {
        lemma_inverted_row(a, b, w, h, y, k - 1);
        let x = 2 * k - 1;
        let g = frame::px(a, w, x + 1, y) - frame::px(a, w, x - 1, y);
        let e = frame::px(a, w, x, y + 1) - frame::px(a, w, x, y - 1);
        assert(frame::px(b, w, x + 1, y) - frame::px(b, w, x - 1, y) == -g);
        assert(frame::px(b, w, x, y + 1) - frame::px(b, w, x, y - 1) == -e);
        assert((-g) * (-g) == g * g && (-e) * (-e) == e * e) by (nonlinear_arith);
    }
}

proof fn lemma_inverted_grid(a: Seq<u8>, b: Seq<u8>, w: int, h: int, n: int, k: int)
    requires
        is_inverted(a, b, w, h),
        2 * n <= w - 1,
        2 * k <= h - 1,
    ensures
        analysis::grid_energy(b, w, n, k) == analysis::grid_energy(a, w, n, k),
    decreases k,
{
    if k > 0 {
        lemma_inverted_grid(a, b, w, h, n, k - 1);
        lemma_inverted_row(a, b, w, h, 2 * k - 1, n);
    }
}

/// A negative is as sharp as its frame.
pub proof fn law_sharpness_ignores_polarity(a: Seq<u8>, b: Seq<u8>, w: int, h: int)
    requires
        is_inverted(a, b, w, h),
    ensures
        analysis::sharpness_of(b, w, h) == analysis::sharpness_of(a, w, h),
{
    if w >= 4 && h >= 4 {
        lemma_inverted_grid(a, b, w, h, (w - 1) / 2, (h - 1) / 2);
    }
}

/// `gray` rises by `p` per column and by `q` per row.
pub open spec fn is_ramp(gray: Seq<u8>, w: int, h: int, p: int, q: int, c: int) -> bool {
    forall|x: int, y: int|
        plane::in_plane(w, h, x, y) ==> #[trigger] frame::px(gray, w, x, y) == p * x + q * y + c
}

proof fn lemma_ramp_row(gray: Seq<u8>, w: int, h: int, p: int, q: int, c: int, y: int, k: int)
    requires
        is_ramp(gray, w, h, p, q, c),
        1 <= y < h - 1,
        0 <= k,
        2 * k <= w - 1,
    ensures
        analysis::row_energy(gray, w, y, k) == (4 * (p * p + q * q)) * k,
    decreases k,
{
    let e = 4 * (p * p + q * q);
    if k > 0 {
        lemma_ramp_row(gray, w, h, p, q, c, y, k - 1);
        let x = 2 * k - 1;
        assert(frame::px(gray, w, x + 1, y) - frame::px(gray, w, x - 1, y) == 2 * p) by {
            assert(p * (x + 1) == p * x + p && p * (x - 1) == p * x - p) by (nonlinear_arith);
        }
        assert(frame::px(gray, w, x, y + 1) - frame::px(gray, w, x, y - 1) == 2 * q) by {
            assert(q * (y + 1) == q * y + q && q * (y - 1) == q * y - q) by (nonlinear_arith);
        }
        assert((2 * p) * (2 * p) + (2 * q) * (2 * q) == e) by (nonlinear_arith)
            requires
                e == 4 * (p * p + q * q),
        ;
        assert(e * (k - 1) + e == e * k) by (nonlinear_arith);
    } else {
        assert(e * 0 == 0);
    }
}

proof fn lemma_ramp_grid(
    gray: Seq<u8>,
    w: int,
    h: int,
    p: int,
    q: int,
    c: int,
    n: int,
    k: int,
)
    requires
        is_ramp(gray, w, h, p, q, c),
        0 <= n,
        2 * n <= w - 1,
        0 <= k,
        2 * k <= h - 1,
    ensures
        analysis::grid_energy(gray, w, n, k) == (4 * (p * p + q * q)) * (n * k),
    decreases k,
{
    let e = 4 * (p * p + q * q);
    if k > 0 {
        lemma_ramp_grid(gray, w, h, p, q, c, n, k - 1);
        lemma_ramp_row(gray, w, h, p, q, c, 2 * k - 1, n);
        assert(e * (n * (k - 1)) + e * n == e * (n * k)) by (nonlinear_arith);
    } else {
        assert(e * (n * k) == 0) by (nonlinear_arith)
            requires
                k == 0,
        ;
    }
}

/// A whole number over a whole number, as doubles.
proof fn lemma_mean(e: int, n: int)
    requires
        0 <= e <= 0x4000_0000_0000,
        0 < n <= 0x1000_0000_0000,
    ensures
        ({
            let m = double::quotient(double::whole(e), double::whole(n));
            &&& m.finite()
            &&& rounding::within(
                rounding::real_of(m) * (n as real),
                e as real,
                e as real / 1000000real + n as real / 1000000real,
            )
        }),
{
    rounding::lemma_scales();
    rounding::lemma_units_are_small();
    double::lemma_whole(e);
    double::lemma_whole(n);
    rounding::lemma_whole_real(double::whole(e), e);
    rounding::lemma_whole_real(double::whole(n), n);
    let (a, b) = (e as real, n as real);
    rounding::lemma_ratio(a, b);
    let q = a / b;
    assert(0real <= q && q <= a) by (nonlinear_arith)
        requires
            q * b == a,
            a >= 0real,
            b >= 1real,
    ;
    rounding::lemma_quotient(double::whole(e), double::whole(n));
    let u = rounding::unit();
    assert(0real <= u * q && 1000000000real * (u * q) <= q) by (nonlinear_arith)
        requires
            0real <= q,
            u * 4503599627370496real == 1real,
            u > 0real,
    ;
    let m = rounding::real_of(double::quotient(double::whole(e), double::whole(n)));
    let t = q / 1000000real + 1real / 1000000real;
    assert(rounding::within(m, q, t));
    assert(m * b <= a + a / 1000000real + b / 1000000real && m * b >= a - a / 1000000real - b
        / 1000000real) by (nonlinear_arith)
        requires
            q - t <= m <= q + t,
            t == q / 1000000real + 1real / 1000000real,
            q * b == a,
            b >= 1real,
    ;
}

/// The sharpness of a ramp is the square of the luma difference of pixels two apart, taken
/// along the rows and along the columns: in whichever direction the luma rises, and
/// however bright the frame is.
pub proof fn law_sharpness_of_a_ramp(gray: Seq<u8>, w: int, h: int, p: int, q: int, c: int)
    requires
        4 <= w <= 0x4000,
        4 <= h <= 0x4000,
        is_ramp(gray, w, h, p, q, c),
    ensures
        ({
            let s = analysis::sharpness_of(gray, w, h);
            s.finite() && rounding::within(
                rounding::real_of(s),
                (4 * (p * p + q * q)) as real,
                (4 * (p * p + q * q)) as real / 1000000real + 1real / 1000000real,
            )
        }),
{
    let (nx, ny) = ((w - 1) / 2, (h - 1) / 2);
    let e = 4 * (p * p + q * q);
    lemma_ramp_grid(gray, w, h, p, q, c, nx, ny);
    assert(frame::px(gray, w, 1, 0) == p * 1 + q * 0 + c);
    assert(frame::px(gray, w, 0, 0) == p * 0 + q * 0 + c);
    assert(frame::px(gray, w, 0, 1) == p * 0 + q * 1 + c);
    assert(-255 <= p <= 255 && -255 <= q <= 255);
    assert(0 <= p * p <= 65025) by (nonlinear_arith)
        requires
            -255 <= p <= 255,
    ;
    assert(0 <= q * q <= 65025) by (nonlinear_arith)
        requires
            -255 <= q <= 255,
    ;
    let n = nx * ny;
    assert(1 <= n <= 0x400_0000) by (nonlinear_arith)
        requires
            n == nx * ny,
            1 <= nx <= 0x2000,
            1 <= ny <= 0x2000,
    ;
    assert(0 <= e * n <= 0x4000_0000_0000) by (nonlinear_arith)
        requires
            0 <= e <= 520200,
            1 <= n <= 0x400_0000,
    ;
    lemma_mean(e * n, n);
    let m = rounding::real_of(analysis::sharpness_of(gray, w, h));
    let (a, b) = (e as real, n as real);
    assert((e * n) as real == a * b) by (nonlinear_arith)
        requires
            a == e as real,
            b == n as real,
    ;
    let t = a / 1000000real + 1real / 1000000real;
    assert(a - t <= m <= a + t) by (nonlinear_arith)
        requires
            a * b - a * b / 1000000real - b / 1000000real <= m * b <= a * b + a * b / 1000000real
                + b / 1000000real,
            t == a / 1000000real + 1real / 1000000real,
            b >= 1real,
    ;
}

/// `gray` is black but for pixel (x, y), which holds `v`.
pub open spec fn is_dot(gray: Seq<u8>, w: int, h: int, x: int, y: int, v: int) -> bool {
    &&& plane::in_plane(w, h, x, y)
    &&& forall|x1: int, y1: int|
        plane::in_plane(w, h, x1, y1) ==> #[trigger] frame::px(gray, w, x1, y1) == (if x1 == x
            && y1 == y {
            v
        } else {
            0
        })
}

/// How many of the first `k` sampled points of a row or column see a pixel at `c` beside
/// them.
spec fn beside(c: int, k: int) -> int {
    (if c - 1 >= 1 && c - 1 <= 2 * k - 1 {
        1int
    } else {
        0
    }) + (if c + 1 <= 2 * k - 1 {
        1int
    } else {
        0
    })
}

proof fn lemma_dot_row(gray: Seq<u8>, w: int, h: int, x: int, y: int, v: int, row: int, k: int)
    requires
        is_dot(gray, w, h, x, y, v),
        1 <= row < h - 1,
        row % 2 == 1,
        x % 2 != y % 2,
        0 <= k,
        2 * k <= w - 1,
    ensures
        y % 2 == 1 ==> analysis::row_energy(gray, w, row, k) == (if row == y {
            (v * v) * beside(x, k)
        } else {
            0
        }),
        y % 2 == 0 ==> analysis::row_energy(gray, w, row, k) == (if (row == y - 1 || row == y
            + 1) && x <= 2 * k - 1 {
            v * v
        } else {
            0
        }),
    decreases k,
{
    let s = v * v;
    if k > 0 {
        lemma_dot_row(gray, w, h, x, y, v, row, k - 1);
        let c = 2 * k - 1;
        let g = frame::px(gray, w, c + 1, row) - frame::px(gray, w, c - 1, row);
        let e = frame::px(gray, w, c, row + 1) - frame::px(gray, w, c, row - 1);
        assert(g == (if row == y && c + 1 == x {
            v
        } else if row == y && c - 1 == x {
            -v
        } else {
            0
        }));
        assert(e == (if c == x && row + 1 == y {
            v
        } else if c == x && row - 1 == y {
            -v
        } else {
            0
        }));
        assert((-v) * (-v) == s && 0int * 0 == 0) by (nonlinear_arith)
            requires
                s == v * v,
        ;
        assert(s * 0 == 0 && s * 1 == s && s * 2 == s + s) by (nonlinear_arith);
    } else {
        assert(s * 0 == 0) by (nonlinear_arith);
    }
}

proof fn lemma_dot_grid(
    gray: Seq<u8>,
    w: int,
    h: int,
    x: int,
    y: int,
    v: int,
    n: int,
    k: int,
)
    requires
        is_dot(gray, w, h, x, y, v),
        x % 2 != y % 2,
        0 <= n,
        2 * n <= w - 1,
        0 <= k,
        2 * k <= h - 1,
    ensures
        y % 2 == 1 ==> analysis::grid_energy(gray, w, n, k) == (if y <= 2 * k - 1 {
            (v * v) * beside(x, n)
        } else {
            0
        }),
        y % 2 == 0 ==> analysis::grid_energy(gray, w, n, k) == (if x <= 2 * n - 1 {
            (v * v) * beside(y, k)
        } else {
            0
        }),
    decreases k,
{
    let s = v * v;
    assert(s * 0 == 0 && s * 1 == s && s * 2 == s + s) by (nonlinear_arith);
    if k > 0 {
        lemma_dot_grid(gray, w, h, x, y, v, n, k - 1);
        lemma_dot_row(gray, w, h, x, y, v, 2 * k - 1, n);
    }
}

/// A single bright pixel between two sampled points, side by side or one above the other,
/// adds its square once for each of them, and the mean is over all sampled points: every
/// other column of every other row.
pub proof fn law_sharpness_of_one_pixel(
    gray: Seq<u8>,
    w: int,
    h: int,
    x: int,
    y: int,
    v: int,
)
    requires
        4 <= w <= 0x4000,
        4 <= h <= 0x4000,
        is_dot(gray, w, h, x, y, v),
        x % 2 != y % 2,
        1 <= x <= w - 3,
        1 <= y <= h - 3,
    ensures
        ({
            let s = analysis::sharpness_of(gray, w, h);
            let n = ((w - 1) / 2) * ((h - 1) / 2);
            s.finite() && rounding::within(
                rounding::real_of(s) * (n as real),
                (2 * (v * v)) as real,
                (2 * (v * v)) as real / 1000000real + n as real / 1000000real,
            )
        }),
{
    let (nx, ny) = ((w - 1) / 2, (h - 1) / 2);
    lemma_dot_grid(gray, w, h, x, y, v, nx, ny);
    let s = v * v;
    assert(s * 2 == s + s) by (nonlinear_arith);
    assert(frame::px(gray, w, x, y) == v);
    assert(0 <= s <= 65025) by (nonlinear_arith)
        requires
            s == v * v,
            0 <= v <= 255,
    ;
    let n = nx * ny;
    assert(1 <= n <= 0x400_0000) by (nonlinear_arith)
        requires
            n == nx * ny,
            1 <= nx <= 0x2000,
            1 <= ny <= 0x2000,
    ;
    lemma_mean(2 * s, n);
}

/// A count is an amount, and a larger count a larger one.
proof fn lemma_counts(m: int, n: int)
    requires
        0 <= m <= n < 0x20_0000_0000_0000,
    ensures
        order::is_amount(double::whole(m)),
        order::is_amount(double::whole(n)),
        double::whole(m).bits <= double::whole(n).bits,
        m > 0 ==> double::whole(m).bits > 0,
        double::whole(n).finite(),
{
    double::lemma_whole(m);
    double::lemma_whole(n);
    rounding::lemma_whole_real(double::whole(m), m);
    rounding::lemma_whole_real(double::whole(n), n);
    rounding::lemma_constants();
    lemma_amount(m);
    lemma_amount(n);
    rounding::lemma_order(double::whole(n), double::whole(m));
    rounding::lemma_order(Double { bits: 0 }, double::whole(m));
    order::lemma_amounts_are_ordered(double::whole(m), double::whole(n));
    order::lemma_amounts_are_ordered(double::whole(n), double::whole(m));
    order::lemma_amounts_are_ordered(Double { bits: 0 }, double::whole(m));
}

proof fn lemma_amount(n: int)
    requires
        0 <= n < 0x20_0000_0000_0000,
    ensures
        order::is_amount(double::whole(n)),
{
    double::lemma_whole(n);
}

proof fn lemma_brighter_values(a: Thumb, b: Thumb, i: int)
    requires
        a.area == b.area,
        a.area > 0,
        a.sums@[i] <= b.sums@[i],
    ensures
        order::is_amount(overlap::thumb_value(a.sums@[i], a.area)),
        order::is_amount(overlap::thumb_value(b.sums@[i], b.area)),
        overlap::thumb_value(a.sums@[i], a.area).bits <= overlap::thumb_value(
            b.sums@[i],
            b.area,
        ).bits,
{
    let (m, n, k) = (a.sums@[i] as int, b.sums@[i] as int, a.area as int);
    lemma_counts(m, n);
    lemma_counts(k, k);
    order::lemma_quotient_grows(double::whole(m), double::whole(n), double::whole(k));
    crate::wall_law::law_singles_keep_the_order(
        double::whole(m).per(double::whole(k)),
        double::whole(n).per(double::whole(k)),
    );
}

proof fn lemma_brighter_total(a: Thumb, b: Thumb, n: int)
    requires
        a.area == b.area,
        a.area > 0,
        a.sums@.len() == b.sums@.len(),
        0 <= n <= a.sums@.len(),
        forall|i: int| 0 <= i < a.sums@.len() ==> #[trigger] a.sums@[i] <= b.sums@[i],
    ensures
        order::is_amount(overlap::total(overlap::thumb_values(a), n)),
        order::is_amount(overlap::total(overlap::thumb_values(b), n)),
        overlap::total(overlap::thumb_values(a), n).bits <= overlap::total(
            overlap::thumb_values(b),
            n,
        ).bits,
    decreases n,
{
    if n > 0 {
        lemma_brighter_total(a, b, n - 1);
        assert(a.sums@[n - 1] <= b.sums@[n - 1]);
        lemma_brighter_values(a, b, n - 1);
        order::lemma_sum_grows(
            overlap::total(overlap::thumb_values(a), n - 1),
            overlap::thumb_value(a.sums@[n - 1], a.area),
            overlap::total(overlap::thumb_values(b), n - 1),
            overlap::thumb_value(b.sums@[n - 1], b.area),
        );
    }
}

/// A frame that is nowhere darker has no lower mean luma.
pub proof fn law_mean_luma_follows_brightness(a: Thumb, b: Thumb)
    requires
        a.area == b.area,
        a.area > 0,
        0 < a.sums@.len() == b.sums@.len(),
        a.sums@.len() < 0x20_0000_0000_0000,
        forall|i: int| 0 <= i < a.sums@.len() ==> #[trigger] a.sums@[i] <= b.sums@[i],
    ensures
        overlap::mean_of(a).at_most(overlap::mean_of(b)),
{
    let n = a.sums@.len() as int;
    lemma_brighter_total(a, b, n);
    lemma_counts(n, n);
    let (s, t) = (
        overlap::total(overlap::thumb_values(a), n),
        overlap::total(overlap::thumb_values(b), n),
    );
    order::lemma_quotient_grows(s, t, double::whole(n));
    order::lemma_amounts_are_ordered(s.per(double::whole(n)), t.per(double::whole(n)));
}

} // verus!
