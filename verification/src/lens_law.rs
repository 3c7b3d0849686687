//! What the lens model promises: how far off the centre a point is decides how far it is
//! moved, for barrel and pincushion alike.
use vstd::prelude::*;

use crate::chain;
use crate::distortion;
use crate::distortion::Distortion;
use crate::double;
use crate::double::Double;
use crate::edge;
use crate::edge::{Line, Point};
use crate::fit_error;
use crate::ordinary;
use crate::rounding;

verus! {

/// What an offset from the centre is divided by: 1, and k1 times the square of how far it
/// is, in half diagonals of the frame.
pub open spec fn exact_divisor(d: Distortion, dx: Double, dy: Double) -> real {
    let (x, y, r) = (
        rounding::real_of(dx),
        rounding::real_of(dy),
        rounding::real_of(d.r0),
    );
    1real + rounding::real_of(d.k1) * ((x * x + y * y) / (r * r))
}

/// An offset in a frame, and a lens that can be its own: the divisor stays away from zero.
pub open spec fn is_offset(d: Distortion, dx: Double, dy: Double) -> bool {
    let (x, y, r) = (
        rounding::real_of(dx),
        rounding::real_of(dy),
        rounding::real_of(d.r0),
    );
    &&& dx.finite() && rounding::size(x) <= 5000real
    &&& dy.finite() && rounding::size(y) <= 5000real
    &&& d.r0.finite() && 100real <= r <= 5000real
    &&& d.k1.finite() && rounding::size(rounding::real_of(d.k1)) <= 1real / 2real
    &&& x * x + y * y <= 3real / 2real * (r * r)
}

proof fn lemma_divisor(d: Distortion, dx: Double, dy: Double)
    requires
        is_offset(d, dx, dy),
    ensures
        d.divisor(dx, dy).finite(),
        1real / 5real <= exact_divisor(d, dx, dy) <= 2real,
        rounding::within(
            rounding::real_of(d.divisor(dx, dy)),
            exact_divisor(d, dx, dy),
            3real / 1000000real,
        ),
{
    let (x, y, r, k) = (
        rounding::real_of(dx),
        rounding::real_of(dy),
        rounding::real_of(d.r0),
        rounding::real_of(d.k1),
    );
    fit_error::lemma_product_bound(x, x, 5000real, 5000real);
    fit_error::lemma_product_bound(y, y, 5000real, 5000real);
    let (t, m) = (x * x + y * y, r * r);
    assert(x * x >= 0real && y * y >= 0real) by (nonlinear_arith);
    assert(10000real <= m && m <= 25000000real) by (nonlinear_arith)
        requires
            m == r * r,
            100real <= r <= 5000real,
    ;
    ordinary::lemma_times(dx, dx);
    ordinary::lemma_times(dy, dy);
    ordinary::lemma_plus(dx * dx, dy * dy);
    ordinary::lemma_times(d.r0, d.r0);
    let (sq, rr) = (dx * dx + dy * dy, d.r0 * d.r0);
    ordinary::lemma_over(sq, rr);
    let rn = sq.per(rr);
    let (c, w, n) = (rounding::real_of(sq), rounding::real_of(rr), rounding::real_of(rn));
    rounding::lemma_ratio(t, m);
    let p = t / m;
    lemma_share(n, w, c, t, m, p);
    fit_error::lemma_product_bound(k, n, 1real / 2real, 2real);
    ordinary::lemma_times(d.k1, rn);
    rounding::lemma_constants();
    let one = Double { bits: distortion::ONE };
    ordinary::lemma_plus(one, d.k1 * rn);
    let e = n - p;
    fit_error::lemma_product_bound(k, e, 1real / 2real, 1real / 1000000real);
    assert(k * n == k * p + k * e) by (nonlinear_arith)
        requires
            e == n - p,
    ;
    fit_error::lemma_product_bound(k, p, 1real / 2real, 3real / 2real);
    let s = one + d.k1 * rn;
    let least = Double { bits: distortion::LEAST_DIVISOR };
    lemma_least();
    rounding::lemma_absolute(s);
    rounding::lemma_order(double::absolute(s), least);
}

/// A thousandth is less than a hundredth.
proof fn lemma_least()
    ensures
        rounding::real_of(Double { bits: distortion::LEAST_DIVISOR }) < 1real / 100real,
        (Double { bits: distortion::LEAST_DIVISOR }).finite(),
{
    let least = Double { bits: distortion::LEAST_DIVISOR };
    let more = Double { bits: 0x3f80_0000_0000_0000 };
    vstd::arithmetic::power2::lemma2_to64();
    vstd::arithmetic::power2::lemma2_to64_rest();
    crate::significand::lemma_bits_are(more, 59, 0x800_0000_0000_0000, 0x10_0000_0000_0000);
    crate::magnitude::lemma_units_increase(least.magnitude(), more.magnitude());
    rounding::lemma_order(least, more);
}

/// A share from its rounded parts.
proof fn lemma_share(n: real, w: real, c: real, t: real, m: real, p: real)
    requires
        10000real <= m <= 25000000real,
        0real <= t <= 3real / 2real * m,
        p * m == t,
        rounding::within(w, m, 1real / 1000000real),
        rounding::within(c, t, 3real / 1000000real),
        rounding::within(n * w, c, 1real / 1000000real),
    ensures
        0real <= p <= 3real / 2real,
        rounding::size(n) <= 2real,
        rounding::within(n, p, 1real / 1000000real),
{
    fit_error::lemma_cancel(p, 3real / 2real, m);
    assert(0real * m <= p * m) by (nonlinear_arith)
        requires
            p * m >= 0real,
    ;
    fit_error::lemma_cancel(0real, p, m);
    fit_error::lemma_size_product(n, w);
    let (sn, sw) = (rounding::size(n), rounding::size(w));
    assert(sn * sw <= 2real * sw);
    fit_error::lemma_cancel(sn, 2real, sw);
    let f = m - w;
    fit_error::lemma_product_bound(n, f, 2real, 1real / 1000000real);
    assert(n * m == n * w + n * f) by (nonlinear_arith)
        requires
            f == m - w,
    ;
    let e = n - p;
    assert(e * m == n * m - t) by (nonlinear_arith)
        requires
            e == n - p,
            p * m == t,
    ;
    fit_error::lemma_size_product(e, m);
    let se = rounding::size(e);
    let k = 1real / 1000000real;
    assert(se * m <= k * m);
    fit_error::lemma_cancel(se, k, m);
}

/// An ideal position is the measured one with its offset from the centre divided, on both
/// axes alike: farther out under barrel distortion, farther in under pincushion, and by
/// more the farther from the centre it is.
pub proof fn law_lens_divides_the_offset(d: Distortion, p: Point)
    requires
        !d.k1.same(Double { bits: 0 }),
        is_offset(d, p[0] - d.cx, p[1] - d.cy),
        d.cx.finite(),
        rounding::size(rounding::real_of(d.cx)) <= 5000real,
        d.cy.finite(),
        rounding::size(rounding::real_of(d.cy)) <= 5000real,
    ensures
        ({
            let (dx, dy) = (p[0] - d.cx, p[1] - d.cy);
            let q = d.undistorted(p);
            let s = exact_divisor(d, dx, dy);
            &&& q[0].finite() && rounding::within(
                (rounding::real_of(q[0]) - rounding::real_of(d.cx)) * s,
                rounding::real_of(dx),
                1real / 2real,
            )
            &&& q[1].finite() && rounding::within(
                (rounding::real_of(q[1]) - rounding::real_of(d.cy)) * s,
                rounding::real_of(dy),
                1real / 2real,
            )
        }),
{
    let (dx, dy) = (p[0] - d.cx, p[1] - d.cy);
    lemma_divisor(d, dx, dy);
    let v = d.divisor(dx, dy);
    let s = exact_divisor(d, dx, dy);
    lemma_axis(dx, v, s, d.cx);
    lemma_axis(dy, v, s, d.cy);
}

proof fn lemma_axis(dx: Double, v: Double, s: real, c: Double)
    requires
        dx.finite(),
        rounding::size(rounding::real_of(dx)) <= 5000real,
        v.finite(),
        1real / 5real <= s <= 2real,
        rounding::within(rounding::real_of(v), s, 3real / 1000000real),
        c.finite(),
        rounding::size(rounding::real_of(c)) <= 5000real,
    ensures
        (c + dx.per(v)).finite(),
        rounding::within(
            (rounding::real_of(c + dx.per(v)) - rounding::real_of(c)) * s,
            rounding::real_of(dx),
            1real / 2real,
        ),
{
    ordinary::lemma_over(dx, v);
    let q = dx.per(v);
    let (x, y, z) = (rounding::real_of(dx), rounding::real_of(v), rounding::real_of(q));
    fit_error::lemma_size_product(z, y);
    let (sz, sy) = (rounding::size(z), rounding::size(y));
    assert(sz * sy <= 30000real * sy);
    fit_error::lemma_cancel(sz, 30000real, sy);
    ordinary::lemma_plus(c, q);
    let o = rounding::real_of(c + q) - rounding::real_of(c);
    let (e, f) = (o - z, s - y);
    fit_error::lemma_product_bound(e, s, 1real / 1000000real, 2real);
    fit_error::lemma_product_bound(z, f, 30000real, 3real / 1000000real);
    assert(o * s == z * y + z * f + e * s) by (nonlinear_arith)
        requires
            e == o - z,
            f == s - y,
    ;
}

/// A refined corner is the given one, or no more than 2.5 px away from it.
pub proof fn law_corner_moves_little(nominal: Point, prev: Option<Line>, cur: Option<Line>)
    ensures
        ({
            let p = edge::refined_corner(nominal, prev, cur);
            p == nominal || (!chain::gap(p, nominal).nan() && 2real * rounding::real_of(
                chain::gap(p, nominal),
            ) <= 5real)
        }),
{
    vstd::arithmetic::power2::lemma2_to64();
    vstd::arithmetic::power2::lemma2_to64_rest();
    let most = Double { bits: edge::MAX_MOVE };
    crate::significand::lemma_bits_are(most, 51, 0x8_0000_0000_0000, 0x14_0000_0000_0000);
    let p = edge::refined_corner(nominal, prev, cur);
    rounding::lemma_order(most, chain::gap(p, nominal));
}

} // verus!
