//! What putting a wall together promises: the nearest keyframe shows a spot, uncertainty
//! grows outward from the anchor, and the lens is where the links fit best.
use vstd::arithmetic::power2;
use vstd::prelude::*;

use crate::blur;
use crate::closure::Quad;
use crate::closure;
use crate::double;
use crate::double::Double;
use crate::edge::Point;
use crate::extent_law;
use crate::fit_error;
use crate::linalg::Mat3;
use crate::links::LinkQuality;
use crate::order;
use crate::ordinary;
use crate::passes;
use crate::passes::Sample;
use crate::render;
use crate::render::{Colours, Extent, Ranks, Window};
use crate::rounding;
use crate::sample::Luma;
use crate::significand;
use crate::single;
use crate::sorting;
use crate::synthetic::PanCamera;
use crate::wall;

verus! {

/// Rounding to a single never reverses the order of two amounts.
pub proof fn law_singles_keep_the_order(a: Double, b: Double)
    requires
        order::is_amount(a),
        order::is_amount(b),
        a.bits <= b.bits,
    ensures
        order::is_amount(single::nearest_single(a)),
        order::is_amount(single::nearest_single(b)),
        single::nearest_single(a).bits <= single::nearest_single(b).bits,
{
    let n = 0x2000_0000int;
    vstd::arithmetic::div_mod::lemma_fundamental_div_mod(a.bits as int, n);
    vstd::arithmetic::div_mod::lemma_fundamental_div_mod(b.bits as int, n);
    lemma_single(a);
    lemma_single(b);
    let (p, q) = (a.bits as int / n, b.bits as int / n);
    assert(p <= q);
}

/// The nearest single has the leading bits of the double, or the next ones.
proof fn lemma_single(d: Double)
    requires
        order::is_amount(d),
    ensures
        ({
            let n = 0x2000_0000int;
            let (q, low) = (d.bits as int / n, d.bits as int % n);
            let s = single::nearest_single(d).bits as int;
            &&& s <= 0x7ff0_0000_0000_0000
            &&& d.finite() ==> (if low > 0x1000_0000 || (low == 0x1000_0000 && q % 2 == 1) {
                s == n * q + n
            } else {
                s == n * q
            })
            &&& !d.finite() ==> s == d.bits && low == 0
        }),
{
    let n = 0x2000_0000int;
    vstd::arithmetic::div_mod::lemma_fundamental_div_mod(d.bits as int, n);
    let (q, low) = (d.bits as int / n, d.bits as int % n);
    let base = d.bits - low;
    assert(base == n * q);
    vstd::arithmetic::div_mod::lemma_fundamental_div_mod_converse(base, n, q, 0);
}

/// The exact square of the distance of two positions on the wall.
pub open spec fn exact_square(p: Point, q: Point) -> real {
    let x = rounding::real_of(p[0]) - rounding::real_of(q[0]);
    let y = rounding::real_of(p[1]) - rounding::real_of(q[1]);
    x * x + y * y
}

/// A position whose coordinates are places on a wall.
pub open spec fn is_spot(p: Point) -> bool {
    extent_law::is_place(p[0]) && extent_law::is_place(p[1])
}

/// The sum of the squares, before it is rounded to a single.
pub proof fn lemma_square_distance(p: Point, q: Point)
    requires
        is_spot(p),
        is_spot(q),
    ensures
        ({
            let c = (p[0] - q[0]) * (p[0] - q[0]) + (p[1] - q[1]) * (p[1] - q[1]);
            &&& c.finite()
            &&& rounding::real_of(c) >= 0real
            &&& exact_square(p, q) >= 0real
            &&& rounding::within(
                rounding::real_of(c),
                exact_square(p, q),
                exact_square(p, q) / 100000000real + 1real / 100000000real,
            )
        }),
{
    extent_law::lemma_square(p[0], q[0]);
    extent_law::lemma_square(p[1], q[1]);
    rounding::lemma_units_are_small();
    let (dx, dy) = (p[0] - q[0], p[1] - q[1]);
    rounding::lemma_square_sum(dx, dy);
    let u = rounding::unit();
    let (a, b) = (
        rounding::real_of(dx) * rounding::real_of(dx),
        rounding::real_of(dy) * rounding::real_of(dy),
    );
    let s = a + b;
    assert(0real <= 3real * u * s && 3real * u * s <= s / 1000000000real) by (nonlinear_arith)
        requires
            0real <= s,
            u * 4503599627370496real == 1real,
            u > 0real,
    ;
}

/// Of two keyframes the one whose centre is nearer to a spot on the wall never ranks
/// behind the other, however they lie: left or right, above or below.
pub proof fn law_nearer_keyframe_ranks_first(p: Point, near: Point, far: Point)
    requires
        is_spot(p),
        is_spot(near),
        is_spot(far),
        exact_square(p, near) + exact_square(p, near) / 10000000real + 1real / 10000000real
            < exact_square(p, far) - exact_square(p, far) / 10000000real,
    ensures
        wall::square_distance(p, near).at_most(wall::square_distance(p, far)),
{
    lemma_square_distance(p, near);
    lemma_square_distance(p, far);
    let c = (p[0] - near[0]) * (p[0] - near[0]) + (p[1] - near[1]) * (p[1] - near[1]);
    let d = (p[0] - far[0]) * (p[0] - far[0]) + (p[1] - far[1]) * (p[1] - far[1]);
    rounding::lemma_order(c, d);
    lemma_bits_of_squares(p, near);
    lemma_bits_of_squares(p, far);
    order::lemma_amounts_are_ordered(c, d);
    law_singles_keep_the_order(c, d);
    order::lemma_amounts_are_ordered(single::nearest_single(c), single::nearest_single(d));
}

/// A sum of squares is an amount.
proof fn lemma_bits_of_squares(p: Point, q: Point)
    requires
        is_spot(p),
        is_spot(q),
    ensures
        order::is_amount((p[0] - q[0]) * (p[0] - q[0]) + (p[1] - q[1]) * (p[1] - q[1])),
{
    extent_law::lemma_square(p[0], q[0]);
    extent_law::lemma_square(p[1], q[1]);
    let (dx, dy) = (p[0] - q[0], p[1] - q[1]);
    order::lemma_square_is_amount(dx);
    order::lemma_square_is_amount(dy);
    order::lemma_sum_grows(dx * dx, dy * dy, dx * dx, dy * dy);
}

/// Tracking variance is none at the anchor and adds up outward from it, by the noise of
/// each link, in both directions.
pub proof fn law_tracking_variance_adds_up_outward(
    links: Seq<LinkQuality>,
    chain: Seq<Mat3>,
    centres: Seq<Point>,
    nominal: Double,
    ka: int,
    i: int,
)
    requires
        0 <= ka,
        0 <= i,
        ordinary::is_ordinary(wall::walk_variance(links, chain, centres, nominal, ka, i)),
        ordinary::is_ordinary(wall::walk_variance(links, chain, centres, nominal, ka, i + 1)),
        ordinary::is_ordinary(wall::link_variance(links, chain, centres, nominal, i)),
    ensures
        rounding::real_of(wall::walk_variance(links, chain, centres, nominal, ka, ka)) == 0real,
        rounding::within(
            rounding::real_of(
                wall::walk_variance(
                    links,
                    chain,
                    centres,
                    nominal,
                    ka,
                    if i >= ka {
                        i + 1
                    } else {
                        i
                    },
                ),
            ) - rounding::real_of(
                wall::walk_variance(
                    links,
                    chain,
                    centres,
                    nominal,
                    ka,
                    if i >= ka {
                        i
                    } else {
                        i + 1
                    },
                ),
            ),
            rounding::real_of(wall::link_variance(links, chain, centres, nominal, i)),
            1real / 1000000real,
        ),
{
    rounding::lemma_constants();
    let v = wall::link_variance(links, chain, centres, nominal, i);
    if i >= ka {
        ordinary::lemma_plus(wall::walk_variance(links, chain, centres, nominal, ka, i), v);
    } else {
        ordinary::lemma_plus(wall::walk_variance(links, chain, centres, nominal, ka, i + 1), v);
    }
}

/// Of all samples of the scan the one with the lowest RMS is taken, the first where
/// several are as low.
pub proof fn law_lowest_sample_is_taken(samples: Seq<Sample>, n: int)
    requires
        1 <= n <= samples.len(),
        forall|i: int| 0 <= i < samples.len() ==> !(#[trigger] samples[i]).1.nan(),
    ensures
        ({
            let b = passes::lowest_sample(samples, n);
            &&& 0 <= b < n
            &&& forall|i: int|
                0 <= i < n ==> samples[b].1.value() <= (#[trigger] samples[i]).1.value()
            &&& forall|i: int|
                0 <= i < b ==> samples[b].1.value() < (#[trigger] samples[i]).1.value()
        }),
    decreases n,
{
    if n > 1 {
        law_lowest_sample_is_taken(samples, n - 1);
    }
}

proof fn lemma_scan_constants()
    ensures
        rounding::within(
            rounding::real_of(Double { bits: passes::FIRST_K1 }),
            -3real / 10real,
            1real / 1000000000real,
        ),
        rounding::within(
            rounding::real_of(Double { bits: passes::K1_STEP }),
            2real / 100real,
            1real / 1000000000real,
        ),
        rounding::real_of(Double { bits: passes::ONE_HALF }) == 1real / 2real,
        rounding::real_of(Double { bits: passes::TWO }) == 2real,
{
    power2::lemma2_to64();
    power2::lemma2_to64_rest();
    rounding::lemma_constants();
    let first = Double { bits: 0x3fd3_3333_3333_3333 };
    significand::lemma_bits_are(first, 54, 0x40_0000_0000_0000, 0x13_3333_3333_3333);
    ordinary::lemma_opposite(first);
    significand::lemma_bits_are(
        Double { bits: passes::K1_STEP },
        58,
        0x400_0000_0000_0000,
        0x14_7ae1_47ae_147b,
    );
    significand::lemma_bits_are(
        Double { bits: passes::ONE_HALF },
        53,
        0x20_0000_0000_0000,
        0x10_0000_0000_0000,
    );
}

/// The scan goes from a k1 of -0.30 up in steps of 0.02.
pub proof fn law_scan_steps_evenly(j: int)
    requires
        0 <= j <= 100,
    ensures
        passes::scan_k1(j).finite(),
        rounding::within(
            rounding::real_of(passes::scan_k1(j)),
            -3real / 10real + 2real * (j as real) / 100real,
            (j as real + 1real) * (1real / 100000real),
        ),
    decreases j,
{
    lemma_scan_constants();
    if j > 0 {
        law_scan_steps_evenly(j - 1);
        ordinary::lemma_plus(passes::scan_k1(j - 1), Double { bits: passes::K1_STEP });
    }
}

/// The blur of a marker is the median of what its profiles show: a middle one when they
/// are put in order.
pub proof fn law_blur_is_the_median(luma: &Luma, right: Double, bottom: Double, q: Quad)
    ensures
        ({
            let widths = blur::widths_before(luma, right, bottom, q, 12);
            let b = blur::blur_of(luma, right, bottom, q);
            &&& widths.len() == 0 ==> rounding::real_of(b) == 2real
            &&& widths.len() > 0 ==> exists|s: Seq<(Double, ())>|
                {
                    &&& #[trigger] s.to_multiset() == widths.to_multiset()
                    &&& s.len() == widths.len()
                    &&& sorting::has_numbers(widths) ==> sorting::is_sorted(s)
                    &&& b == s[widths.len() as int / 2].0
                }
        }),
{
    rounding::lemma_constants();
    let widths = blur::widths_before(luma, right, bottom, q, 12);
    sorting::law_sorted(widths);
    let s = sorting::sorted(widths);
    assert(s.to_multiset() == widths.to_multiset());
}

/// The k1 that the scan points to lies between its neighbours where the parabola through
/// the three samples is lowest: towards the neighbour with the lower RMS.
pub proof fn law_k1_is_refined_towards_the_better_neighbour(l: Sample, m: Sample, r: Sample)
    requires
        passes::is_step(l.0, m.0 - Double { bits: passes::K1_STEP }),
        passes::is_step(r.0, m.0 + Double { bits: passes::K1_STEP }),
        m.0.finite(),
        rounding::size(rounding::real_of(m.0)) <= 1real,
        is_rms(l.1),
        is_rms(m.1),
        is_rms(r.1),
        rounding::real_of(m.1) <= rounding::real_of(l.1),
        rounding::real_of(m.1) <= rounding::real_of(r.1),
        bend_of(l, m, r) >= 1real / 100real,
    ensures
        ({
            let k = passes::refined_k1(l, m, r);
            let off = rounding::real_of(k) - rounding::real_of(m.0);
            &&& k.finite()
            &&& rounding::size(off) <= 11real / 1000real
            &&& rounding::within(
                off * bend_of(l, m, r),
                (rounding::real_of(l.1) - rounding::real_of(r.1)) / 100real,
                1real / 10000real,
            )
        }),
{
    lemma_scan_constants();
    rounding::lemma_scales();
    rounding::lemma_units_are_small();
    let (x, y, z) = (rounding::real_of(l.1), rounding::real_of(m.1), rounding::real_of(r.1));
    let (two, half, step) = (
        Double { bits: passes::TWO },
        Double { bits: passes::ONE_HALF },
        Double { bits: passes::K1_STEP },
    );
    let bend = bend_of(l, m, r);
    lemma_bend(l, m, r);
    let d = l.1 - two * m.1 + r.1;
    crate::track_law::lemma_flat(passes::LEAST_CURVATURE);
    rounding::lemma_order(Double { bits: passes::LEAST_CURVATURE }, d);
    let (s, h) = (rounding::real_of(step), rounding::real_of(half));
    assert(s * h == s / 2real) by (nonlinear_arith)
        requires
            h == 1real / 2real,
    ;
    rounding::lemma_product(step, half);
    let u = rounding::unit();
    let w = rounding::size(s / 2real);
    assert(0real <= u * w && u * w <= u) by (nonlinear_arith)
        requires
            0real <= w <= 1real,
            u > 0real,
    ;
    let p = step * half;
    let a = rounding::real_of(p);
    assert(rounding::within(a, 1real / 100real, 1real / 100000000real));
    ordinary::lemma_minus(l.1, r.1);
    let g = l.1 - r.1;
    let b = rounding::real_of(g);
    fit_error::lemma_product_bound(a, b, 1real, 6real);
    ordinary::lemma_times(p, g);
    let e = a - 1real / 100real;
    fit_error::lemma_product_bound(e, b, 1real / 100000000real, 6real);
    assert(a * b == b / 100real + e * b) by (nonlinear_arith)
        requires
            e == a - 1real / 100real,
    ;
    let n = rounding::real_of(p * g);
    assert(rounding::within(n, (x - z) / 100real, 2real / 1000000real));
    ordinary::lemma_over(p * g, d);
    let o = (p * g).per(d);
    let (v, t) = (rounding::real_of(o), rounding::real_of(d));
    lemma_share(v, t, bend, n, x - z);
    ordinary::lemma_opposite(step);
    rounding::lemma_order(o, step.opposite());
    rounding::lemma_order(step, o);
    assert(closure::clamped(o, step.opposite(), step) == o);
    ordinary::lemma_plus(m.0, o);
    let off = rounding::real_of(passes::refined_k1(l, m, r)) - rounding::real_of(m.0);
    let f = off - v;
    fit_error::lemma_product_bound(f, bend, 1real / 1000000real, 20real);
    assert(off * bend == v * bend + f * bend) by (nonlinear_arith)
        requires
            f == off - v,
    ;
}

/// An RMS of a link that holds: no more than 5 px.
pub open spec fn is_rms(v: Double) -> bool {
    v.finite() && 0real <= rounding::real_of(v) <= 5real
}

/// How much three samples bend: the rise on both sides of the middle one.
pub open spec fn bend_of(l: Sample, m: Sample, r: Sample) -> real {
    rounding::real_of(l.1) - 2real * rounding::real_of(m.1) + rounding::real_of(r.1)
}

proof fn lemma_bend(l: Sample, m: Sample, r: Sample)
    requires
        is_rms(l.1),
        is_rms(m.1),
        is_rms(r.1),
    ensures
        ({
            let d = l.1 - Double { bits: passes::TWO } * m.1 + r.1;
            d.finite() && rounding::within(
                rounding::real_of(d),
                bend_of(l, m, r),
                4real / 1000000real,
            )
        }),
{
    lemma_scan_constants();
    let two = Double { bits: passes::TWO };
    let (b, y) = (rounding::real_of(two), rounding::real_of(m.1));
    assert(b * y == 2real * y) by (nonlinear_arith)
        requires
            b == 2real,
    ;
    ordinary::lemma_times(two, m.1);
    ordinary::lemma_minus(l.1, two * m.1);
    ordinary::lemma_plus(l.1 - two * m.1, r.1);
}

/// The offset from its rounded parts.
proof fn lemma_share(v: real, t: real, bend: real, n: real, g: real)
    requires
        1real / 100real <= bend <= 20real,
        rounding::within(t, bend, 4real / 1000000real),
        rounding::within(v * t, n, 1real / 1000000real),
        rounding::within(n, g / 100real, 2real / 1000000real),
        rounding::size(g) <= bend,
    ensures
        rounding::size(v) <= 108real / 10000real,
        rounding::within(v * bend, g / 100real, 4real / 1000000real),
{
    fit_error::lemma_size_product(v, t);
    let (sv, st) = (rounding::size(v), rounding::size(t));
    let k = 108real / 10000real;
    assert(k * st >= sv * st);
    fit_error::lemma_cancel(sv, k, st);
    let e = bend - t;
    fit_error::lemma_product_bound(v, e, k, 4real / 1000000real);
    assert(v * bend == v * t + v * e) by (nonlinear_arith)
        requires
            e == bend - t,
    ;
}

/// How far the farther edge of a picture is from the middle of the marker, in sides of the
/// marker.
pub open spec fn reach_of(e: Extent, side: Double) -> real {
    let s = rounding::real_of(side);
    let (a, b) = (
        rounding::size(rounding::real_of(e.min_y) - s / 2real),
        rounding::size(rounding::real_of(e.max_y) - s / 2real),
    );
    (if a < b {
        b
    } else {
        a
    }) / s
}

/// The noise of the anchor is amplified by half the square of the reach above or below it,
/// whichever is farther, and never made smaller.
pub proof fn law_lever_follows_the_farther_edge(e: Extent, side: Double)
    requires
        e.min_y.finite(),
        rounding::size(rounding::real_of(e.min_y)) <= 10000real,
        e.max_y.finite(),
        rounding::size(rounding::real_of(e.max_y)) <= 10000real,
        side.finite(),
        10real <= rounding::real_of(side) <= 1000real,
    ensures
        ({
            let l = wall::lever(e, side);
            let q = reach_of(e, side) * reach_of(e, side) / 2real;
            l.finite() && rounding::within(
                rounding::real_of(l),
                if q < 1real {
                    1real
                } else {
                    q
                },
                1real / 100real,
            )
        }),
{
    rounding::lemma_constants();
    let (two, one) = (Double { bits: closure::TWO }, Double { bits: closure::ONE });
    let s = rounding::real_of(side);
    ordinary::lemma_over(side, two);
    let half = side.per(two);
    let t = rounding::real_of(half);
    let w = rounding::real_of(two);
    assert(t * w == 2real * t) by (nonlinear_arith)
        requires
            w == 2real,
    ;
    ordinary::lemma_minus(e.min_y, half);
    ordinary::lemma_minus(e.max_y, half);
    let (a, b) = (
        double::absolute(double::difference(e.min_y, half)),
        double::absolute(double::difference(e.max_y, half)),
    );
    rounding::lemma_absolute(double::difference(e.min_y, half));
    rounding::lemma_absolute(double::difference(e.max_y, half));
    rounding::lemma_order(a, b);
    let m = double::larger(a, b);
    let x = rounding::real_of(m);
    ordinary::lemma_over(m, side);
    let d = m.per(side);
    let r = rounding::real_of(d);
    let exact = reach_of(e, side);
    rounding::lemma_ratio(exact * s, s);
    let (p, q) = (
        rounding::size(rounding::real_of(e.min_y) - s / 2real),
        rounding::size(rounding::real_of(e.max_y) - s / 2real),
    );
    let far = if p < q {
        q
    } else {
        p
    };
    rounding::lemma_ratio(far, s);
    assert(exact * s == far);
    lemma_reach(r, exact, s, x, far);
    let rr = r * r;
    fit_error::lemma_product_bound(r, r, 1100real, 1100real);
    ordinary::lemma_times(d, d);
    let sq = double::product(d, d);
    ordinary::lemma_over(sq, two);
    let v = sq.per(two);
    let z = rounding::real_of(v);
    assert(z * w == 2real * z) by (nonlinear_arith)
        requires
            w == 2real,
    ;
    rounding::lemma_order(v, one);
}

/// A reach and its square, from what was divided.
proof fn lemma_reach(r: real, exact: real, s: real, x: real, far: real)
    requires
        10real <= s <= 1000real,
        0real <= far <= 10600real,
        exact * s == far,
        rounding::within(x, far, 4real / 1000000real),
        rounding::within(r * s, x, 1real / 1000000real),
    ensures
        rounding::size(r) <= 1100real,
        0real <= exact <= 1061real,
        rounding::within(r * r, exact * exact, 1real / 500real),
{
    let e = r - exact;
    assert(e * s == r * s - far) by (nonlinear_arith)
        requires
            e == r - exact,
            exact * s == far,
    ;
    fit_error::lemma_size_product(e, s);
    let se = rounding::size(e);
    let k = 6real / 10000000real;
    assert(k * s >= se * s) by (nonlinear_arith)
        requires
            se * s <= 5real / 1000000real,
            s >= 10real,
            k == 6real / 10000000real,
    ;
    fit_error::lemma_cancel(se, k, s);
    assert(1060real * s >= exact * s) by (nonlinear_arith)
        requires
            exact * s <= 10600real,
            s >= 10real,
    ;
    fit_error::lemma_cancel(exact, 1060real, s);
    assert(0real * s <= exact * s) by (nonlinear_arith)
        requires
            exact * s >= 0real,
    ;
    fit_error::lemma_cancel(0real, exact, s);
    let g = r + exact;
    fit_error::lemma_product_bound(e, g, k, 2200real);
    assert(r * r == exact * exact + e * g) by (nonlinear_arith)
        requires
            e == r - exact,
            g == r + exact,
    ;
}

/// A pixel that no keyframe covers is painted in the dark grey of uncovered wall, and one
/// that a keyframe covers is painted as some keyframe shows it.
pub proof fn law_uncovered_pixels_are_marked(
    r: Ranks,
    c: Colours,
    windows: Seq<Window>,
    x: int,
    y: int,
    n: int,
)
    requires
        0 <= n <= windows.len(),
    ensures
        ({
            let found = render::nearest(r, c, windows, x, y, n).1;
            &&& (forall|i: int|
                0 <= i < n ==> !(#[trigger] windows[i]).holds(x, y) || c(i, x, y) is None)
                ==> render::painted(found) == [24u8, 24u8, 28u8]
            &&& found is Some ==> exists|i: int|
                0 <= i < n && (#[trigger] windows[i]).holds(x, y) && c(i, x, y) == found
        }),
    decreases n,
{
    if n > 0 {
        law_uncovered_pixels_are_marked(r, c, windows, x, y, n - 1);
        let (before, after) = (
            render::nearest(r, c, windows, x, y, n - 1).1,
            render::nearest(r, c, windows, x, y, n).1,
        );
        if after is Some && after == before {
            let i = choose|i: int|
                0 <= i < n - 1 && (#[trigger] windows[i]).holds(x, y) && c(i, x, y) == before;
            assert(windows[i].holds(x, y));
        } else if after is Some {
            assert(windows[n - 1].holds(x, y));
        }
    }
}

/// A scene turns its markers as a camera's reading turns them back: the cell that is shown
/// after some quarter turns is the one that reading undoes them to.
pub proof fn law_scene_turns_as_readings_do(r: int, c: int, k: int)
    requires
        0 <= k < 4,
    ensures
        crate::synthetic::turned_cell(r, c, k) == crate::decode::grid_turned_from(k, r, c),
{
    reveal_with_fuel(crate::synthetic::turned_cell, 5);
}

/// The frames of a pan are evenly spaced, from its start to its end.
pub proof fn law_pan_advances_evenly(i: int, n: int)
    requires
        2 <= n <= 1000000,
        0 <= i < n,
    ensures
        PanCamera::progress(i, n).finite(),
        rounding::within(
            rounding::real_of(PanCamera::progress(i, n)) * (n as real - 1real),
            i as real,
            1real / 1000000real,
        ),
{
    double::lemma_whole(i);
    double::lemma_whole(n - 1);
    rounding::lemma_whole_real(double::whole(i), i);
    rounding::lemma_whole_real(double::whole(n - 1), n - 1);
    ordinary::lemma_over(double::whole(i), double::whole(n - 1));
    assert((n - 1) as real == n as real - 1real);
}

/// The camera of a pan is as far between its two ends as the pan has advanced, along both
/// axes.
pub proof fn law_camera_moves_between_its_ends(cam: PanCamera, t: Double, axis: int)
    requires
        0 <= axis < 2,
        t.finite(),
        0real <= rounding::real_of(t) <= 1real,
        cam.start_center_mm[axis].finite(),
        rounding::size(rounding::real_of(cam.start_center_mm[axis])) <= 100000real,
        cam.end_center_mm[axis].finite(),
        rounding::size(rounding::real_of(cam.end_center_mm[axis])) <= 100000real,
    ensures
        ({
            let (a, b, x) = (
                rounding::real_of(cam.start_center_mm[axis]),
                rounding::real_of(cam.end_center_mm[axis]),
                rounding::real_of(t),
            );
            cam.centre_at(t, axis).finite() && rounding::within(
                rounding::real_of(cam.centre_at(t, axis)),
                (1real - x) * a + x * b,
                1real / 100000real,
            )
        }),
{
    let (s, e) = (cam.start_center_mm[axis], cam.end_center_mm[axis]);
    let (a, b, x) = (rounding::real_of(s), rounding::real_of(e), rounding::real_of(t));
    ordinary::lemma_minus(e, s);
    let d = rounding::real_of(e - s);
    fit_error::lemma_product_bound(x, d, 1real, 300000real);
    ordinary::lemma_times(t, e - s);
    ordinary::lemma_plus(s, t * (e - s));
    let f = d - (b - a);
    fit_error::lemma_product_bound(x, f, 1real, 1real / 1000000real);
    assert(x * d == x * b - x * a + x * f) by (nonlinear_arith)
        requires
            d == b - a + f,
    ;
    assert((1real - x) * a == a - x * a) by (nonlinear_arith);
}

} // verus!
