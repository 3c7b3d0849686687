//! What sampling between pixels promises: colours and levels between those of the pixels
//! around a point, channel by channel.
use vstd::arithmetic::div_mod;
use vstd::arithmetic::power2;
use vstd::prelude::*;

use crate::double;
use crate::double::Double;
use crate::fit_error;
use crate::integral;
use crate::magnitude;
use crate::rounding;
use crate::sample;

verus! {

/// A product of doubles close to two reals is close to their product.
pub proof fn lemma_close_product(a: Double, b: Double, x: real, y: real, e: real)
    requires
        a.finite(),
        b.finite(),
        rounding::within(rounding::real_of(a), x, e),
        rounding::within(rounding::real_of(b), y, e),
        rounding::size(x) <= 255real,
        rounding::size(y) <= 1real,
        0real <= e,
        1000real * e <= 1real,
    ensures
        double::product(a, b).finite(),
        rounding::within(
            rounding::real_of(double::product(a, b)),
            x * y,
            258real * e + 1real / 1000000000000real,
        ),
        rounding::size(x * y) <= 255real,
{
    let (p, q) = (rounding::real_of(a), rounding::real_of(b));
    let (d, f) = (p - x, q - y);
    fit_error::lemma_product_bound(d, q, e, 2real);
    fit_error::lemma_product_bound(x, f, 255real, e);
    fit_error::lemma_product_bound(x, y, 255real, 1real);
    fit_error::lemma_product_bound(p, q, 256real, 2real);
    assert(p * q - x * y == d * q + x * f) by (nonlinear_arith)
        requires
            d == p - x,
            f == q - y,
    ;
    assert(e * 2real == 2real * e);
    rounding::lemma_scales();
    rounding::lemma_units_are_small();
    rounding::lemma_product(a, b);
    lemma_rounding_of(rounding::size(p * q));
}

/// A rounding of a number of no more than 4096.
pub proof fn lemma_rounding_of(x: real)
    requires
        0real <= x <= 4096real,
    ensures
        0real <= rounding::unit() * x,
        rounding::unit() * x + rounding::tiny() <= 1real / 1000000000000real,
{
    rounding::lemma_units_are_small();
    let u = rounding::unit();
    assert(0real <= u * x && 1099511627776real * (u * x) <= 1real) by (nonlinear_arith)
        requires
            0real <= x <= 4096real,
            u * 4503599627370496real == 1real,
            u > 0real,
    ;
}

/// A sum of doubles close to two reals is close to their sum.
pub proof fn lemma_close_sum(a: Double, b: Double, x: real, y: real, e: real, f: real)
    requires
        a.finite(),
        b.finite(),
        rounding::within(rounding::real_of(a), x, e),
        rounding::within(rounding::real_of(b), y, f),
        rounding::size(x) <= 2000real,
        rounding::size(y) <= 2000real,
        e <= 1real,
        f <= 1real,
    ensures
        double::sum(a, b).finite(),
        rounding::within(
            rounding::real_of(double::sum(a, b)),
            x + y,
            e + f + 1real / 1000000000000real,
        ),
{
    rounding::lemma_scales();
    rounding::lemma_units_are_small();
    rounding::lemma_sum(a, b);
    lemma_rounding_of(rounding::size(rounding::real_of(a) + rounding::real_of(b)));
}

/// A difference of doubles close to two reals is close to their difference.
pub proof fn lemma_close_difference(a: Double, b: Double, x: real, y: real, e: real, f: real)
    requires
        a.finite(),
        b.finite(),
        rounding::within(rounding::real_of(a), x, e),
        rounding::within(rounding::real_of(b), y, f),
        rounding::size(x) <= 2000real,
        rounding::size(y) <= 2000real,
        e <= 1real,
        f <= 1real,
    ensures
        double::difference(a, b).finite(),
        rounding::within(
            rounding::real_of(double::difference(a, b)),
            x - y,
            e + f + 1real / 1000000000000real,
        ),
{
    rounding::lemma_scales();
    rounding::lemma_units_are_small();
    rounding::lemma_difference(a, b);
    lemma_rounding_of(rounding::size(rounding::real_of(a) - rounding::real_of(b)));
}

/// Four values mixed by where a point lies between them: `p` of the way from the west
/// ones to the east ones, `q` of the way from the north ones to the south ones.
pub open spec fn mix(nw: real, ne: real, sw: real, se: real, p: real, q: real) -> real {
    (nw + p * (ne - nw)) * (1real - q) + (sw + p * (se - sw)) * q
}

/// A mix of values lies between them.
proof fn lemma_between(a: real, b: real, p: real, lo: real, hi: real)
    requires
        lo <= a <= hi,
        lo <= b <= hi,
        0real <= p <= 1real,
    ensures
        lo <= a + p * (b - a) <= hi,
{
    assert(lo <= a + p * (b - a) <= hi) by (nonlinear_arith)
        requires
            lo <= a <= hi,
            lo <= b <= hi,
            0real <= p <= 1real,
    ;
}

/// A mix of four values lies between them.
pub proof fn lemma_mix_between(
    nw: real,
    ne: real,
    sw: real,
    se: real,
    p: real,
    q: real,
    lo: real,
    hi: real,
)
    requires
        lo <= nw <= hi,
        lo <= ne <= hi,
        lo <= sw <= hi,
        lo <= se <= hi,
        0real <= p <= 1real,
        0real <= q <= 1real,
    ensures
        lo <= mix(nw, ne, sw, se, p, q) <= hi,
{
    lemma_between(nw, ne, p, lo, hi);
    lemma_between(sw, se, p, lo, hi);
    let (a, b) = (nw + p * (ne - nw), sw + p * (se - sw));
    lemma_between(a, b, q, lo, hi);
    assert(a * (1real - q) + b * q == a + q * (b - a)) by (nonlinear_arith);
}

/// One of the four terms of a blend.
proof fn lemma_blend_term(n: Double, a: Double, b: Double, x: real, y: real, z: real)
    requires
        n.finite(),
        a.finite(),
        b.finite(),
        rounding::real_of(n) == x,
        0real <= x <= 255real,
        rounding::within(rounding::real_of(a), y, 1real / 250000000000real),
        rounding::within(rounding::real_of(b), z, 1real / 250000000000real),
        0real <= y <= 1real,
        0real <= z <= 1real,
    ensures
        double::product(double::product(n, a), b).finite(),
        rounding::within(
            rounding::real_of(double::product(double::product(n, a), b)),
            (x * y) * z,
            1real / 1000000real,
        ),
        0real <= (x * y) * z <= 255real,
{
    lemma_close_product(n, a, x, y, 1real / 250000000000real);
    let xy = x * y;
    assert(0real <= xy) by (nonlinear_arith)
        requires
            xy == x * y,
            0real <= x,
            0real <= y,
    ;
    lemma_close_product(double::product(n, a), b, xy, z, 1real / 500000000real);
    assert(0real <= xy * z) by (nonlinear_arith)
        requires
            0real <= xy,
            0real <= z,
    ;
}

/// A blend is the mix of its values but for rounding.
pub proof fn lemma_blended(
    nw: Double,
    ne: Double,
    sw: Double,
    se: Double,
    fx: Double,
    fy: Double,
    p: real,
    q: real,
)
    requires
        nw.finite() && 0real <= rounding::real_of(nw) <= 255real,
        ne.finite() && 0real <= rounding::real_of(ne) <= 255real,
        sw.finite() && 0real <= rounding::real_of(sw) <= 255real,
        se.finite() && 0real <= rounding::real_of(se) <= 255real,
        fx.finite() && rounding::within(rounding::real_of(fx), p, 1real / 1000000000000real),
        fy.finite() && rounding::within(rounding::real_of(fy), q, 1real / 1000000000000real),
        0real <= p <= 1real,
        0real <= q <= 1real,
    ensures
        sample::blended(nw, ne, sw, se, fx, fy).finite(),
        rounding::within(
            rounding::real_of(sample::blended(nw, ne, sw, se, fx, fy)),
            mix(
                rounding::real_of(nw),
                rounding::real_of(ne),
                rounding::real_of(sw),
                rounding::real_of(se),
                p,
                q,
            ),
            1real / 200000real,
        ),
{
    rounding::lemma_constants();
    let one = Double { bits: sample::ONE };
    let e = 1real / 1000000000000real;
    let (a, b) = (double::difference(one, fx), double::difference(one, fy));
    lemma_close_difference(one, fx, 1real, p, 0real, e);
    lemma_close_difference(one, fy, 1real, q, 0real, e);
    let (w, x, y, z) = (
        rounding::real_of(nw),
        rounding::real_of(ne),
        rounding::real_of(sw),
        rounding::real_of(se),
    );
    let (g, h) = (1real - p, 1real - q);
    lemma_blend_term(nw, a, b, w, g, h);
    lemma_blend_term(ne, fx, b, x, p, h);
    lemma_blend_term(sw, a, fy, y, g, q);
    lemma_blend_term(se, fx, fy, z, p, q);
    let (t1, t2, t3, t4) = (
        double::product(double::product(nw, a), b),
        double::product(double::product(ne, fx), b),
        double::product(double::product(sw, a), fy),
        double::product(double::product(se, fx), fy),
    );
    let (r1, r2, r3, r4) = ((w * g) * h, (x * p) * h, (y * g) * q, (z * p) * q);
    let f = 1real / 1000000real;
    lemma_close_sum(t1, t2, r1, r2, f, f);
    let s1 = double::sum(t1, t2);
    lemma_close_sum(s1, t3, r1 + r2, r3, 2real * f + e, f);
    let s2 = double::sum(s1, t3);
    lemma_close_sum(s2, t4, r1 + r2 + r3, r4, 3real * f + 2real * e, f);
    assert(sample::blended(nw, ne, sw, se, fx, fy) == double::sum(s2, t4));
    assert(w * g + x * p == w + p * (x - w)) by (nonlinear_arith)
        requires
            g == 1real - p,
    ;
    assert(y * g + z * p == y + p * (z - y)) by (nonlinear_arith)
        requires
            g == 1real - p,
    ;
    let (k, l, m, n) = (w * g, x * p, y * g, z * p);
    assert(r1 + r2 == (k + l) * h) by (nonlinear_arith)
        requires
            r1 == k * h,
            r2 == l * h,
    ;
    assert(r3 + r4 == (m + n) * q) by (nonlinear_arith)
        requires
            r3 == m * q,
            r4 == n * q,
    ;
}

/// A double without its fraction.
pub proof fn lemma_truncated(v: Double)
    requires
        v.finite(),
        0real <= rounding::real_of(v) < 9007199254740992real,
    ensures
        0 <= integral::truncated(v) < 0x20_0000_0000_0000,
        integral::truncated(v) as real <= rounding::real_of(v),
        rounding::real_of(v) < integral::truncated(v) as real + 1real,
{
    rounding::lemma_parts(v);
    rounding::lemma_scales();
    power2::lemma_pow2_pos(1074);
    let c = power2::pow2(1074) as int;
    let (x, p) = (rounding::real_of(v), rounding::unit_count());
    let units = magnitude::units(v.magnitude());
    let n = units / c;
    assert(v.value() >= 0) by {
        assert(x * p >= 0real) by (nonlinear_arith)
            requires
                x >= 0real,
                p > 0real,
        ;
    }
    assert(units == v.value());
    div_mod::lemma_fundamental_div_mod(units, c);
    div_mod::lemma_div_pos_is_pos(units, c);
    let r = units % c;
    assert(0 <= r < c);
    let (nr, rr, ur) = (n as real, r as real, units as real);
    assert(ur == nr * p + rr) by (nonlinear_arith)
        requires
            units == c * n + r,
            ur == units as real,
            nr == n as real,
            rr == r as real,
            p == c as real,
    ;
    assert(nr <= x && x < nr + 1real) by (nonlinear_arith)
        requires
            x * p == nr * p + rr,
            0real <= rr < p,
            p > 0real,
    ;
    assert(n < 0x20_0000_0000_0000);
}

/// A double rounded to a whole number is no more than a half off.
pub proof fn lemma_rounded(v: Double)
    requires
        v.finite(),
        rounding::size(rounding::real_of(v)) < 9007199254740992real,
    ensures
        rounding::within(integral::rounded(v) as real, rounding::real_of(v), 1real / 2real),
{
    rounding::lemma_parts(v);
    rounding::lemma_scales();
    power2::lemma_pow2_pos(1073);
    power2::lemma_pow2_unfold(1074);
    let c = power2::pow2(1073) as int;
    let p = rounding::unit_count();
    let units = magnitude::units(v.magnitude());
    let a = rounding::size(rounding::real_of(v));
    let x = rounding::real_of(v);
    let (ur, h) = (units as real, c as real);
    assert(p == 2real * h);
    assert(a * p == ur) by (nonlinear_arith)
        requires
            a == x || a == -x,
            x * p == ur || x * p == -ur,
            a >= 0real,
            ur >= 0real,
            p > 0real,
    ;
    let k = units / c;
    div_mod::lemma_fundamental_div_mod(units, c);
    div_mod::lemma_div_pos_is_pos(units, c);
    let r = units % c;
    let (kr, rr) = (k as real, r as real);
    assert(ur == kr * h + rr) by (nonlinear_arith)
        requires
            units == c * k + r,
            ur == units as real,
            kr == k as real,
            rr == r as real,
            h == c as real,
    ;
    let b = 2real * a;
    assert(b * h == ur) by (nonlinear_arith)
        requires
            a * p == ur,
            p == 2real * h,
            b == 2real * a,
    ;
    assert(kr <= b && b < kr + 1real) by (nonlinear_arith)
        requires
            b * h == kr * h + rr,
            0real <= rr < h,
            h > 0real,
    ;
    assert(k < 0x40_0000_0000_0000);
    if units == 0 {
        assert(x == 0real) by (nonlinear_arith)
            requires
                x * p == 0real,
                p > 0real,
        ;
    } else {
        assert(v.is_negative() ==> x < 0real) by {
            assert(x * p < 0real ==> x < 0real) by (nonlinear_arith)
                requires
                    p > 0real,
            ;
        }
        assert(!v.is_negative() ==> x > 0real) by {
            assert(x * p > 0real ==> x > 0real) by (nonlinear_arith)
                requires
                    p > 0real,
            ;
        }
    }
}

/// The part of a coordinate beyond its pixel.
proof fn lemma_fraction(v: Double, n: int)
    requires
        v.finite(),
        0 <= n < 0x20_0000_0000_0000,
        n as real <= rounding::real_of(v),
        rounding::real_of(v) < n as real + 1real,
    ensures
        double::difference(v, double::whole(n)).finite(),
        rounding::within(
            rounding::real_of(double::difference(v, double::whole(n))),
            rounding::real_of(v) - n as real,
            1real / 1000000000000real,
        ),
{
    double::lemma_whole(n);
    rounding::lemma_whole_real(double::whole(n), n);
    rounding::lemma_scales();
    rounding::lemma_units_are_small();
    rounding::lemma_difference(v, double::whole(n));
    lemma_rounding_of(rounding::real_of(v) - n as real);
}

/// A byte as a double is that byte.
proof fn lemma_byte(data: Seq<u8>, w: int, channels: int, channel: int, x: int, y: int)
    ensures
        ({
            let b = sample::byte_at(data, w, channels, channel, x, y);
            &&& b.finite()
            &&& rounding::real_of(b) == data[(y * w + x) * channels + channel] as int as real
            &&& 0real <= rounding::real_of(b) <= 255real
        }),
{
    let n = data[(y * w + x) * channels + channel] as int;
    double::lemma_whole(n);
    rounding::lemma_whole_real(double::whole(n), n);
}

/// The pixel after `i` on a side of `n`, or the last.
pub open spec fn next_pixel(i: int, n: int) -> int {
    if i < n - 1 {
        i + 1
    } else {
        n - 1
    }
}

/// The byte of a channel of a pixel.
pub open spec fn channel_at(data: Seq<u8>, w: int, channels: int, channel: int, x: int, y: int) -> real {
    data[(y * w + x) * channels + channel] as int as real
}

/// A value between pixels is the mix of the four pixels around the point, column by
/// column and row by row, but for rounding; and it is between them.
pub proof fn law_interpolation_mixes_the_four_pixels(
    data: Seq<u8>,
    w: int,
    h: int,
    channels: int,
    channel: int,
    x: Double,
    y: Double,
    i: int,
    j: int,
)
    requires
        0 < w < 0x20_0000_0000_0000,
        0 < h < 0x20_0000_0000_0000,
        x.finite(),
        y.finite(),
        0 <= i < w,
        0 <= j < h,
        i as real <= rounding::real_of(x),
        rounding::real_of(x) < i as real + 1real,
        j as real <= rounding::real_of(y),
        rounding::real_of(y) < j as real + 1real,
    ensures
        ({
            let v = sample::interpolated(data, w, h, channels, channel, x, y);
            let (k, l) = (next_pixel(i, w), next_pixel(j, h));
            &&& v.finite()
            &&& rounding::within(
                rounding::real_of(v),
                mix(
                    channel_at(data, w, channels, channel, i, j),
                    channel_at(data, w, channels, channel, k, j),
                    channel_at(data, w, channels, channel, i, l),
                    channel_at(data, w, channels, channel, k, l),
                    rounding::real_of(x) - i as real,
                    rounding::real_of(y) - j as real,
                ),
                1real / 200000real,
            )
        }),
{
    lemma_truncated(x);
    lemma_truncated(y);
    assert(integral::truncated(x) == i && integral::truncated(y) == j);
    lemma_fraction(x, i);
    lemma_fraction(y, j);
    let (k, l) = (next_pixel(i, w), next_pixel(j, h));
    assert(sample::following(i, w) == k && sample::following(j, h) == l);
    lemma_byte(data, w, channels, channel, i, j);
    lemma_byte(data, w, channels, channel, k, j);
    lemma_byte(data, w, channels, channel, i, l);
    lemma_byte(data, w, channels, channel, k, l);
    lemma_blended(
        sample::byte_at(data, w, channels, channel, i, j),
        sample::byte_at(data, w, channels, channel, k, j),
        sample::byte_at(data, w, channels, channel, i, l),
        sample::byte_at(data, w, channels, channel, k, l),
        double::difference(x, double::whole(i)),
        double::difference(y, double::whole(j)),
        rounding::real_of(x) - i as real,
        rounding::real_of(y) - j as real,
    );
}

/// A point has a colour exactly where it lies between the first and the last pixel. Each
/// channel of it is the mix of that channel of the four pixels around the point, rounded:
/// it is between the least and the greatest of them, and on a pixel it is that of the
/// pixel.
pub proof fn law_colour_is_that_of_the_pixels_around(
    rgba: Seq<u8>,
    w: int,
    h: int,
    x: Double,
    y: Double,
    i: int,
    j: int,
    channel: int,
    lo: u8,
    hi: u8,
)
    requires
        0 < w < 0x20_0000_0000_0000,
        0 < h < 0x20_0000_0000_0000,
        x.finite(),
        y.finite(),
        i as real <= rounding::real_of(x),
        rounding::real_of(x) < i as real + 1real,
        j as real <= rounding::real_of(y),
        rounding::real_of(y) < j as real + 1real,
        0 <= channel < 3,
        lo as int as real <= channel_at(rgba, w, 4, channel, i, j) <= hi as int as real,
        lo as int as real <= channel_at(rgba, w, 4, channel, next_pixel(i, w), j) <= hi as int as real,
        lo as int as real <= channel_at(rgba, w, 4, channel, i, next_pixel(j, h)) <= hi as int as real,
        lo as int as real <= channel_at(rgba, w, 4, channel, next_pixel(i, w), next_pixel(j, h))
            <= hi as int as real,
    ensures
        sample::colour_at(rgba, w, h, x, y) is Some <==> 0real <= rounding::real_of(x) <= (w
            - 1) as real && 0real <= rounding::real_of(y) <= (h - 1) as real,
        sample::colour_at(rgba, w, h, x, y) matches Some(c) ==> {
            &&& lo <= c[channel] <= hi
            &&& rounding::within(
                c[channel] as int as real,
                mix(
                    channel_at(rgba, w, 4, channel, i, j),
                    channel_at(rgba, w, 4, channel, next_pixel(i, w), j),
                    channel_at(rgba, w, 4, channel, i, next_pixel(j, h)),
                    channel_at(rgba, w, 4, channel, next_pixel(i, w), next_pixel(j, h)),
                    rounding::real_of(x) - i as real,
                    rounding::real_of(y) - j as real,
                ),
                100001real / 200000real,
            )
        },
{
    rounding::lemma_constants();
    double::lemma_whole(w - 1);
    double::lemma_whole(h - 1);
    rounding::lemma_whole_real(double::whole(w - 1), w - 1);
    rounding::lemma_whole_real(double::whole(h - 1), h - 1);
    let zero = Double { bits: 0 };
    rounding::lemma_order(x, zero);
    rounding::lemma_order(y, zero);
    rounding::lemma_order(double::whole(w - 1), x);
    rounding::lemma_order(double::whole(h - 1), y);
    if sample::colour_at(rgba, w, h, x, y) is Some {
        assert(0 <= i < w && 0 <= j < h);
        law_interpolation_mixes_the_four_pixels(rgba, w, h, 4, channel, x, y, i, j);
        let (p, q) = (rounding::real_of(x) - i as real, rounding::real_of(y) - j as real);
        let (k, l) = (next_pixel(i, w), next_pixel(j, h));
        lemma_mix_between(
            channel_at(rgba, w, 4, channel, i, j),
            channel_at(rgba, w, 4, channel, k, j),
            channel_at(rgba, w, 4, channel, i, l),
            channel_at(rgba, w, 4, channel, k, l),
            p,
            q,
            lo as int as real,
            hi as int as real,
        );
        lemma_rounded(sample::interpolated(rgba, w, h, 4, channel, x, y));
    }
}

/// Beyond the frame the luma is that of the nearest point of its border, on all four
/// sides.
pub proof fn law_luma_beyond_the_frame_is_that_of_its_border(
    gray: Seq<u8>,
    w: int,
    h: int,
    x: Double,
    y: Double,
)
    requires
        0 < w < 0x20_0000_0000_0000,
        0 < h < 0x20_0000_0000_0000,
    ensures
        x.less(Double { bits: 0 }) ==> sample::luma_at(gray, w, h, x, y) == sample::luma_at(
            gray,
            w,
            h,
            Double { bits: 0 },
            y,
        ),
        y.less(Double { bits: 0 }) ==> sample::luma_at(gray, w, h, x, y) == sample::luma_at(
            gray,
            w,
            h,
            x,
            Double { bits: 0 },
        ),
        double::whole(w - 1).less(x) ==> sample::luma_at(gray, w, h, x, y) == sample::luma_at(
            gray,
            w,
            h,
            double::whole(w - 1),
            y,
        ),
        double::whole(h - 1).less(y) ==> sample::luma_at(gray, w, h, x, y) == sample::luma_at(
            gray,
            w,
            h,
            x,
            double::whole(h - 1),
        ),
{
    rounding::lemma_constants();
    double::lemma_whole(w - 1);
    double::lemma_whole(h - 1);
    rounding::lemma_whole_real(double::whole(w - 1), w - 1);
    rounding::lemma_whole_real(double::whole(h - 1), h - 1);
    let zero = Double { bits: 0 };
    rounding::lemma_order(double::whole(w - 1), zero);
    rounding::lemma_order(double::whole(h - 1), zero);
    rounding::lemma_order(x, zero);
    rounding::lemma_order(y, zero);
    rounding::lemma_order(double::whole(w - 1), x);
    rounding::lemma_order(double::whole(h - 1), y);
}

} // verus!
