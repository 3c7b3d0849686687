//! What a rendered wall shows of the frames it is rendered from.
use vstd::arithmetic::power2;
use vstd::prelude::*;

use crate::double;
use crate::double::Double;
use crate::edge::Point;
use crate::fit_error;
use crate::homography;
use crate::linalg::Mat3;
use crate::magnitude;
use crate::plane;
use crate::render;
use crate::rounding;
use crate::sample;
use crate::sample_law;
use crate::significand;

verus! {

/// A point of the wall is shown exactly where it lands between the first and the last
/// pixel of the frame, and each channel of its colour is between the least and the
/// greatest value of that channel in the four pixels around its image.
pub proof fn law_shown_colour_is_that_of_the_frame(
    rgba: Seq<u8>,
    w: int,
    h: int,
    hom: Mat3,
    p: Point,
    channel: int,
    lo: u8,
    hi: u8,
)
    requires
        0 < w < 0x20_0000_0000_0000,
        0 < h < 0x20_0000_0000_0000,
        0 <= channel < 3,
    ensures
        match homography::image_of(hom, p[0], p[1]) {
            None => render::warped(rgba, w, h, hom, p) is None,
            Some((x, y)) => x.finite() && y.finite() ==> {
                let (a, b) = (rounding::real_of(x), rounding::real_of(y));
                let inside = 0real <= a <= (w - 1) as real && 0real <= b <= (h - 1) as real;
                &&& render::warped(rgba, w, h, hom, p) is Some == inside
                &&& inside && (forall|i: int, j: int|
                    #![trigger sample_law::channel_at(rgba, w, 4, channel, i, j)]
                    0 <= i < w && 0 <= j < h && -1real < i as real - a && i as real - a <= 1real
                        && -1real < j as real - b && j as real - b <= 1real ==> lo as int as real
                        <= sample_law::channel_at(rgba, w, 4, channel, i, j) <= hi as int as real)
                    ==> lo <= render::warped(rgba, w, h, hom, p)->0[channel] <= hi
            },
        },
{
    if let Some((x, y)) = homography::image_of(hom, p[0], p[1]) {
        if x.finite() && y.finite() {
            let (a, b) = (rounding::real_of(x), rounding::real_of(y));
            let inside = 0real <= a <= (w - 1) as real && 0real <= b <= (h - 1) as real;
            rounding::lemma_constants();
            double::lemma_whole(w - 1);
            double::lemma_whole(h - 1);
            rounding::lemma_whole_real(double::whole(w - 1), w - 1);
            rounding::lemma_whole_real(double::whole(h - 1), h - 1);
            let zero = Double { bits: 0 };
            rounding::lemma_order(x, zero);
            rounding::lemma_order(y, zero);
            rounding::lemma_order(double::whole(w - 1), x);
            rounding::lemma_order(double::whole(h - 1), y);
            if inside {
                sample_law::lemma_truncated(x);
                sample_law::lemma_truncated(y);
                let (i, j) = (
                    crate::integral::truncated(x),
                    crate::integral::truncated(y),
                );
                let (k, l) = (sample_law::next_pixel(i, w), sample_law::next_pixel(j, h));
                if forall|i: int, j: int|
                    #![trigger sample_law::channel_at(rgba, w, 4, channel, i, j)]
                    0 <= i < w && 0 <= j < h && -1real < i as real - a && i as real - a <= 1real
                        && -1real < j as real - b && j as real - b <= 1real ==> lo as int as real
                        <= sample_law::channel_at(rgba, w, 4, channel, i, j) <= hi as int as real {
                    let c1 = sample_law::channel_at(rgba, w, 4, channel, i, j);
                    let c2 = sample_law::channel_at(rgba, w, 4, channel, k, j);
                    let c3 = sample_law::channel_at(rgba, w, 4, channel, i, l);
                    let c4 = sample_law::channel_at(rgba, w, 4, channel, k, l);
                    sample_law::law_colour_is_that_of_the_pixels_around(
                        rgba,
                        w,
                        h,
                        x,
                        y,
                        i,
                        j,
                        channel,
                        lo,
                        hi,
                    );
                }
            }
        }
    }
}

/// Every pixel of a rendered output is opaque. One whose wall position no frame shows is
/// dark (24, 24, 28); any other has each channel between the least and the greatest value
/// of that channel in the frame. So a frame of one colour is rendered in that colour
/// wherever it covers the output.
pub proof fn law_rendered_channels_are_those_of_the_frame(
    out: Seq<u8>,
    rgba: Seq<u8>,
    w: int,
    h: int,
    hom: Mat3,
    origin: Point,
    mm_per_px: Double,
    out_w: int,
    out_h: int,
    x: int,
    y: int,
    channel: int,
    lo: u8,
    hi: u8,
)
    requires
        render::is_warp(out, rgba, w, h, hom, origin, mm_per_px, out_w, out_h),
        0 < w < 0x20_0000_0000_0000,
        0 < h < 0x20_0000_0000_0000,
        0 <= x < out_w,
        0 <= y < out_h,
        0 <= channel < 3,
        forall|i: int, j: int|
            #![trigger sample_law::channel_at(rgba, w, 4, channel, i, j)]
            0 <= i < w && 0 <= j < h ==> lo as int as real <= sample_law::channel_at(
                rgba,
                w,
                4,
                channel,
                i,
                j,
            ) <= hi as int as real,
    ensures
        ({
            let q = 4 * (y * out_w + x);
            let at = render::pixel_centre(origin, mm_per_px, x, y);
            let shown = render::warped(rgba, w, h, hom, at) is Some;
            &&& out[q + 3] == 255
            &&& !shown ==> out[q] == 24 && out[q + 1] == 24 && out[q + 2] == 28
            &&& shown ==> lo <= out[q + channel] <= hi
        }),
{
    plane::lemma_index_bounds(out_w, out_h, x, y);
    plane::lemma_index_split(out_w, x, y);
    let p = y * out_w + x;
    let at = render::pixel_centre(origin, mm_per_px, x, y);
    assert(render::has_colour(out, p, render::painted(render::warped(rgba, w, h, hom, at))));
    if let Some((a, b)) = homography::image_of(hom, at[0], at[1]) {
        if sample::is_inside(w, h, a, b) {
            double::lemma_whole(w - 1);
            double::lemma_whole(h - 1);
            lemma_bounded_is_finite(a, w - 1);
            lemma_bounded_is_finite(b, h - 1);
            law_shown_colour_is_that_of_the_frame(rgba, w, h, hom, at, channel, lo, hi);
        }
    }
}

/// What lies between zero and a whole number is finite.
proof fn lemma_bounded_is_finite(d: Double, n: int)
    requires
        (Double { bits: 0 }).at_most(d),
        d.at_most(double::whole(n)),
        double::is_whole(double::whole(n), n),
    ensures
        d.finite(),
{
    let top = double::whole(n);
    assert(magnitude::units(0) == 0) by (nonlinear_arith);
    magnitude::lemma_units_nonnegative(d.magnitude());
    if !d.finite() {
        magnitude::lemma_units_increase(top.magnitude(), d.magnitude());
        magnitude::lemma_units_nonnegative(top.magnitude());
        assert(d.value() > top.value() || d.value() < 0);
    }
}

/// The centre of output pixel (x, y) is half a pixel and x pixels to the right of the
/// origin, and half a pixel and y pixels below it, but for rounding.
pub proof fn law_pixel_centres_are_evenly_spaced(
    origin: Point,
    mm_per_px: Double,
    x: int,
    y: int,
)
    requires
        0 <= x < 0x1_0000,
        0 <= y < 0x1_0000,
        mm_per_px.finite(),
        origin[0].finite(),
        origin[1].finite(),
        0real <= rounding::real_of(mm_per_px) <= 1000real,
        rounding::size(rounding::real_of(origin[0])) <= 100000000real,
        rounding::size(rounding::real_of(origin[1])) <= 100000000real,
    ensures
        ({
            let p = render::pixel_centre(origin, mm_per_px, x, y);
            let m = rounding::real_of(mm_per_px);
            &&& p[0].finite() && p[1].finite()
            &&& rounding::within(
                rounding::real_of(p[0]),
                rounding::real_of(origin[0]) + (x as real + 1real / 2real) * m,
                1real / 1000000real,
            )
            &&& rounding::within(
                rounding::real_of(p[1]),
                rounding::real_of(origin[1]) + (y as real + 1real / 2real) * m,
                1real / 1000000real,
            )
        }),
{
    lemma_centre(origin[0], mm_per_px, x);
    lemma_centre(origin[1], mm_per_px, y);
}

proof fn lemma_centre(o: Double, m: Double, x: int)
    requires
        0 <= x < 0x1_0000,
        m.finite(),
        o.finite(),
        0real <= rounding::real_of(m) <= 1000real,
        rounding::size(rounding::real_of(o)) <= 100000000real,
    ensures
        ({
            let half = Double { bits: render::ONE_HALF };
            let c = double::sum(
                o,
                double::product(double::sum(double::whole(x), half), m),
            );
            &&& c.finite()
            &&& rounding::within(
                rounding::real_of(c),
                rounding::real_of(o) + (x as real + 1real / 2real) * rounding::real_of(m),
                1real / 1000000real,
            )
        }),
{
    power2::lemma2_to64();
    power2::lemma2_to64_rest();
    let half = Double { bits: render::ONE_HALF };
    significand::lemma_bits_are(half, 53, 0x20_0000_0000_0000, 0x10_0000_0000_0000);
    double::lemma_whole(x);
    rounding::lemma_whole_real(double::whole(x), x);
    rounding::lemma_scales();
    rounding::lemma_units_are_small();
    let (u, t) = (rounding::unit(), rounding::tiny());
    let a = double::sum(double::whole(x), half);
    rounding::lemma_sum(double::whole(x), half);
    let (k, ra, rm) = (x as real + 1real / 2real, rounding::real_of(a), rounding::real_of(m));
    lemma_small(k);
    fit_error::lemma_product_bound(ra - k, rm, 1real / 50000000000real, 1000real);
    fit_error::lemma_product_bound(k, rm, 65536real, 1000real);
    assert((ra - k) * rm == ra * rm - k * rm) by (nonlinear_arith);
    rounding::lemma_product(a, m);
    lemma_small(rounding::size(ra * rm));
    let b = double::product(a, m);
    rounding::lemma_sum(o, b);
    lemma_small(rounding::size(rounding::real_of(o) + rounding::real_of(b)));
}

/// A rounding of a number of no more than 2^30.
proof fn lemma_small(x: real)
    requires
        0real <= x <= 1073741824real,
    ensures
        0real <= rounding::unit() * x,
        rounding::unit() * x + rounding::tiny() <= 1real / 4000000real,
        1000000000real * (rounding::unit() * x) <= x / 4000000real,
{
    rounding::lemma_units_are_small();
    let u = rounding::unit();
    assert(0real <= u * x && 4194304real * (u * x) <= 1real) by (nonlinear_arith)
        requires
            0real <= x <= 1073741824real,
            u * 4503599627370496real == 1real,
            u > 0real,
    ;
    assert(4000000000000000real * (u * x) <= x) by (nonlinear_arith)
        requires
            0real <= x,
            u * 4503599627370496real == 1real,
            u > 0real,
    ;
}

} // verus!
