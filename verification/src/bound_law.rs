//! What the error bound and the exclusion zones promise, in millimetres.
use vstd::prelude::*;

use crate::bound;
use crate::double::Double;
use crate::exclusion;
use crate::exclusion::RectMm;
use crate::ordinary;
use crate::rounding;
use crate::sorting;

verus! {

/// The tracking variance at a distance is that of the last point that is no farther away;
/// before the first point there is none.
pub proof fn law_tracking_variance_is_that_of_the_last_point(
    track: Seq<(Double, Double)>,
    ax: Double,
    k: int,
)
    requires
        -1 <= k < track.len(),
        forall|i: int| 0 <= i <= k ==> (#[trigger] track[i]).0.at_most(ax),
        k + 1 < track.len() ==> !track[k + 1].0.at_most(ax),
    ensures
        bound::track_at(track, ax, 0, Double { bits: 0 }) == (if k < 0 {
            Double { bits: 0 }
        } else {
            track[k].1
        }),
{
    lemma_track(track, ax, k, 0, Double { bits: 0 });
}

proof fn lemma_track(track: Seq<(Double, Double)>, ax: Double, k: int, i: int, before: Double)
    requires
        -1 <= k < track.len(),
        0 <= i <= k + 1,
        forall|j: int| 0 <= j <= k ==> (#[trigger] track[j]).0.at_most(ax),
        k + 1 < track.len() ==> !track[k + 1].0.at_most(ax),
    ensures
        bound::track_at(track, ax, i, before) == (if i > k {
            before
        } else {
            track[k].1
        }),
    decreases k + 1 - i,
{
    if i <= k {
        assert(track[i].0.at_most(ax));
        lemma_track(track, ax, k, i + 1, track[i].1);
    }
}

/// The envelope of tracking points is no smaller than any point that is no farther away,
/// and keeps the distances of all points.
pub proof fn law_envelope_covers_every_point(points: Seq<(Double, Double)>, i: int, j: int)
    requires
        0 <= i <= j < points.len(),
        forall|k: int| 0 <= k < points.len() ==> !(#[trigger] points[k]).1.nan(),
    ensures
        ({
            let s = sorting::sorted(points);
            let e = bound::envelope_of(points);
            &&& e.len() == points.len()
            &&& e[j].0 == s[j].0
            &&& s[i].1.value() <= e[j].1.value()
            &&& !e[j].1.nan()
        }),
{
    sorting::law_sorted(points);
    let s = sorting::sorted(points);
    assert forall|k: int| 0 <= k < s.len() implies !(#[trigger] s[k]).1.nan() by {
        vstd::seq_lib::to_multiset_contains(s, s[k]);
        vstd::seq_lib::to_multiset_contains(points, s[k]);
        assert(s.contains(s[k]));
        let p = choose|p: int| 0 <= p < points.len() && points[p] == s[k];
        assert(!points[p].1.nan());
    }
    lemma_running(s, i, j + 1);
}

proof fn lemma_running(s: Seq<(Double, Double)>, i: int, n: int)
    requires
        0 <= i < n <= s.len(),
        forall|k: int| 0 <= k < s.len() ==> !(#[trigger] s[k]).1.nan(),
    ensures
        !bound::running_max(s, n).nan(),
        s[i].1.value() <= bound::running_max(s, n).value(),
    decreases n,
{
    assert(!s[n - 1].1.nan());
    lemma_running_is_a_number(s, n - 1);
    if i < n - 1 {
        lemma_running(s, i, n - 1);
    }
}

proof fn lemma_running_is_a_number(s: Seq<(Double, Double)>, n: int)
    requires
        0 <= n <= s.len(),
        forall|k: int| 0 <= k < s.len() ==> !(#[trigger] s[k]).1.nan(),
    ensures
        !bound::running_max(s, n).nan(),
    decreases n,
{
    if n > 0 {
        lemma_running_is_a_number(s, n - 1);
        assert(!s[n - 1].1.nan());
    }
}

/// All four sides of a rectangle are ordinary numbers.
pub open spec fn is_ordinary(r: RectMm) -> bool {
    &&& ordinary::is_ordinary(r.left)
    &&& ordinary::is_ordinary(r.top)
    &&& ordinary::is_ordinary(r.right)
    &&& ordinary::is_ordinary(r.bottom)
}

/// The larger of two numbers.
pub open spec fn most(x: real, y: real) -> real {
    if x < y {
        y
    } else {
        x
    }
}

/// The smaller of two numbers.
pub open spec fn least(x: real, y: real) -> real {
    if x < y {
        x
    } else {
        y
    }
}

/// A zone reaches as far beyond its obstruction as the buffer says, on each of the four
/// sides, and ends at the wall's own sides where it would reach farther. It exists where
/// that leaves any area.
pub proof fn law_zone_keeps_its_distance(outline: RectMm, buffer: Double, wall: RectMm)
    requires
        is_ordinary(outline),
        ordinary::is_ordinary(buffer),
        is_ordinary(wall),
    ensures
        ({
            let z = exclusion::zone_of(outline, buffer, wall);
            let b = rounding::real_of(buffer);
            let (l, t) = (
                most(rounding::real_of(outline.left) - b, rounding::real_of(wall.left)),
                most(rounding::real_of(outline.top) - b, rounding::real_of(wall.top)),
            );
            let (r, f) = (
                least(rounding::real_of(outline.right) + b, rounding::real_of(wall.right)),
                least(rounding::real_of(outline.bottom) + b, rounding::real_of(wall.bottom)),
            );
            &&& ordinary::is_about(z.left, l)
            &&& ordinary::is_about(z.top, t)
            &&& ordinary::is_about(z.right, r)
            &&& ordinary::is_about(z.bottom, f)
            &&& l + 1real / 100000real < r && t + 1real / 100000real < f ==> z.has_area()
            &&& l > r + 1real / 100000real || t > f + 1real / 100000real ==> !z.has_area()
        }),
{
    ordinary::lemma_minus(outline.left, buffer);
    ordinary::lemma_minus(outline.top, buffer);
    ordinary::lemma_plus(outline.right, buffer);
    ordinary::lemma_plus(outline.bottom, buffer);
    let g = outline.inflated(buffer);
    rounding::lemma_order(g.left, wall.left);
    rounding::lemma_order(g.top, wall.top);
    rounding::lemma_order(wall.right, g.right);
    rounding::lemma_order(wall.bottom, g.bottom);
    let z = exclusion::zone_of(outline, buffer, wall);
    rounding::lemma_order(z.left, z.right);
    rounding::lemma_order(z.top, z.bottom);
}

/// A quantity that a bound adds up.
pub open spec fn is_amount(d: Double, m: real) -> bool {
    d.finite() && 0real <= rounding::real_of(d) <= m
}

/// The residual that the closure leaves grows in proportion to the distance from the
/// anchor, and reaches its full size at Marker B: its square, over the square of the span.
pub proof fn law_closure_residual_grows_linearly(span: Double, residual: Double, ax: Double)
    requires
        is_amount(span, 100000real),
        rounding::real_of(span) >= 1real,
        is_amount(residual, 100real),
        is_amount(ax, 100000real),
    ensures
        ({
            let v = bound::ramp_at(Some((span, residual)), ax);
            let (s, p) = (
                rounding::real_of(span),
                rounding::real_of(residual) * rounding::real_of(ax),
            );
            v.finite() && rounding::within(
                rounding::real_of(v) * (s * s),
                p * p,
                (p * p) / 100000real + (s * s) / 100000real,
            )
        }),
{
    crate::closure_law::lemma_least(Double { bits: bound::LEAST_SPAN });
    rounding::lemma_order(Double { bits: bound::LEAST_SPAN }, span);
    rounding::lemma_scales();
    rounding::lemma_units_are_small();
    let (s, r, a) = (rounding::real_of(span), rounding::real_of(residual), rounding::real_of(ax));
    let p = r * a;
    assert(0real <= p && p <= 10000000real) by (nonlinear_arith)
        requires
            p == r * a,
            0real <= r <= 100real,
            0real <= a <= 100000real,
    ;
    rounding::lemma_product(residual, ax);
    lemma_part(p);
    let m = residual * ax;
    let x = rounding::real_of(m);
    rounding::lemma_ratio(x, s);
    let q = x / s;
    assert(rounding::size(q) <= rounding::size(x)) by {
        crate::fit_error::lemma_size_product(q, s);
        let (sq, sx) = (rounding::size(q), rounding::size(x));
        assert(sq <= sx) by (nonlinear_arith)
            requires
                sq * s == sx,
                s >= 1real,
                sq >= 0real,
        ;
    }
    rounding::lemma_quotient(m, span);
    lemma_part(rounding::size(q));
    let d = m.per(span);
    let y = rounding::real_of(d);
    let yy = y * y;
    crate::fit_error::lemma_product_bound(y, y, 20000000real, 20000000real);
    rounding::lemma_product(d, d);
    let u = rounding::unit();
    assert(0real <= u * yy && 1000000000real * (u * yy) <= yy && 0real <= yy)
        by (nonlinear_arith)
        requires
            yy == y * y,
            u * 4503599627370496real == 1real,
            u > 0real,
    ;
    crate::fit_error::lemma_size_product(y, y);
    let v = rounding::real_of(d * d);
    assert(rounding::within(v, yy, yy / 1000000000real + 1real / 1000000000real));
    lemma_squares(v, y, yy, q, x, p, s);
}

/// From a rounded quotient to the square of what was divided.
proof fn lemma_squares(v: real, y: real, yy: real, q: real, x: real, p: real, s: real)
    requires
        yy == y * y,
        rounding::within(v, yy, yy / 1000000000real + 1real / 1000000000real),
        rounding::within(y, q, rounding::size(q) / 1000000000real + 1real / 1000000000000000real),
        q * s == x,
        rounding::within(x, p, p / 1000000000real + 1real / 1000000000000000real),
        0real <= p,
        1real <= s,
    ensures
        rounding::within(v * (s * s), p * p, (p * p) / 100000real + (s * s) / 100000real),
{
    // w is y times s: close to p.
    let w = y * s;
    let e = y - q;
    let (sq, ss) = (rounding::size(q), s * s);
    crate::fit_error::lemma_size_product(q, s);
    crate::fit_error::lemma_size_product(e, s);
    let se = rounding::size(e);
    let t = 1real / 1000000000000000real;
    crate::fit_error::lemma_scale_both(se, sq / 1000000000real + t, s);
    assert((sq / 1000000000real + t) * s == sq * s / 1000000000real + t * s) by (nonlinear_arith);
    assert(w == x + e * s) by (nonlinear_arith)
        requires
            w == y * s,
            e == y - q,
            q * s == x,
    ;
    let f = w - p;
    let b = p / 100000000real + s / 100000000real;
    assert(rounding::size(f) <= b);
    crate::fit_error::lemma_product_bound(f, f, b, b);
    crate::fit_error::lemma_product_bound(f, p, b, p);
    let (ww, pp, ff, fp) = (w * w, p * p, f * f, f * p);
    assert(ww == pp + 2real * fp + ff) by (nonlinear_arith)
        requires
            ww == w * w,
            pp == p * p,
            ff == f * f,
            fp == f * p,
            f == w - p,
    ;
    let ps = p * s;
    lemma_mean(p, s);
    assert(b * p == pp / 100000000real + ps / 100000000real) by (nonlinear_arith)
        requires
            b == p / 100000000real + s / 100000000real,
            pp == p * p,
            ps == p * s,
    ;
    let (bp, bs) = (b * p, b * s);
    assert(bs == ps / 100000000real + ss / 100000000real) by (nonlinear_arith)
        requires
            b == p / 100000000real + s / 100000000real,
            bs == b * s,
            ps == p * s,
            ss == s * s,
    ;
    assert(b * b == bp / 100000000real + bs / 100000000real) by (nonlinear_arith)
        requires
            b == p / 100000000real + s / 100000000real,
            bp == b * p,
            bs == b * s,
    ;
    assert(yy * ss == ww) by (nonlinear_arith)
        requires
            yy == y * y,
            ss == s * s,
            ww == w * w,
            w == y * s,
    ;
    let g = v - yy;
    let c = yy / 1000000000real + 1real / 1000000000real;
    assert(yy >= 0real && ss >= 0real && pp >= 0real) by (nonlinear_arith)
        requires
            yy == y * y,
            ss == s * s,
            pp == p * p,
    ;
    crate::fit_error::lemma_product_bound(g, ss, c, ss);
    assert(c * ss == ww / 1000000000real + ss / 1000000000real) by (nonlinear_arith)
        requires
            c == yy / 1000000000real + 1real / 1000000000real,
            yy * ss == ww,
    ;
    assert(v * ss == yy * ss + g * ss) by (nonlinear_arith)
        requires
            g == v - yy,
    ;
}

proof fn lemma_mean(p: real, s: real)
    ensures
        2real * (p * s) <= p * p + s * s,
{
    let d = p - s;
    assert(d * d == p * p - 2real * (p * s) + s * s && d * d >= 0real) by (nonlinear_arith)
        requires
            d == p - s,
    ;
}

proof fn lemma_part(x: real)
    requires
        0real <= x <= 1000000000000real,
    ensures
        0real <= rounding::unit() * x,
        1000000000real * (rounding::unit() * x) <= x,
        1000000000000000real * rounding::tiny() <= 1real,
{
    rounding::lemma_units_are_small();
    let u = rounding::unit();
    assert(0real <= u * x && 1000000000real * (u * x) <= x) by (nonlinear_arith)
        requires
            0real <= x,
            u * 4503599627370496real == 1real,
            u > 0real,
    ;
}

} // verus!
