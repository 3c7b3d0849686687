//! How exactly the two directions of the lens model undo each other.
use vstd::arithmetic::power2;
use vstd::prelude::*;

use crate::calib;
use crate::distortion;
use crate::distortion::Distortion;
use crate::double;
use crate::double::Double;
use crate::edge::Point;
use crate::magnitude;
use crate::rounding;

verus! {

/// Two numbers that serve as rounding error and least double: both small, the second
/// much smaller.
spec fn are_small(u: real, t: real) -> bool {
    0real < u && 1000000000real * u <= 1real && 0real < t && 1000000000real * t <= u
}

/// The squared radius, from its rounded parts: `c` over `q`.
proof fn lemma_squared_radius(
    c: real,
    q: real,
    x: real,
    n: real,
    g: real,
    rho: real,
    u: real,
    t: real,
)
    requires
        are_small(u, t),
        1real <= g,
        0real <= rho,
        100real * rho <= 101real,
        rounding::within(c, rho * g, 3real * u * (rho * g) + 3real * t),
        rounding::within(q, g, u * g + t),
        x * q == c,
        rounding::within(n, x, u * rounding::size(x) + t),
    ensures
        rounding::within(n, rho, 6real * u),
{
    let s = rho * g;
    let d = q - g;
    assert(rho * d <= u * s + rho * t && -(rho * d) <= u * s + rho * t) by (nonlinear_arith)
        requires
            d <= u * g + t,
            -d <= u * g + t,
            0real <= rho,
            s == rho * g,
    ;
    assert(rho * t <= 2real * t) by (nonlinear_arith)
        requires
            rho <= 2real,
            0real < t,
    ;
    assert(rho * q == s + rho * d) by (nonlinear_arith)
        requires
            d == q - g,
            s == rho * g,
    ;
    let us = u * s;
    let ug = u * g;
    assert(100real * us <= 101real * ug && us >= 0real) by (nonlinear_arith)
        requires
            us == u * s,
            ug == u * g,
            s == rho * g,
            0real <= rho,
            100real * rho <= 101real,
            0real < u,
            1real <= g,
    ;
    assert(3real * u * s == 3real * us) by (nonlinear_arith)
        requires
            us == u * s,
    ;
    assert(t <= ug && 1000000000real * t <= ug) by (nonlinear_arith)
        requires
            ug == u * g,
            1000000000real * t <= u,
            0real < t,
            1real <= g,
    ;
    // c - rho q is at most 4.1 u g.
    assert(10real * (c - rho * q) <= 41real * ug && 10real * (rho * q - c) <= 41real * ug);
    assert(1000000real * ug <= g) by (nonlinear_arith)
        requires
            ug == u * g,
            1000000000real * u <= 1real,
            1real <= g,
    ;
    let off = x - rho;
    assert(off * q == c - rho * q) by (nonlinear_arith)
        requires
            off == x - rho,
            x * q == c,
    ;
    assert(100real * q >= 99real * g);
    assert(10real * off <= 42real * u && -(10real * off) <= 42real * u) by (nonlinear_arith)
        requires
            10real * (off * q) <= 41real * ug,
            -(10real * (off * q)) <= 41real * ug,
            ug == u * g,
            100real * q >= 99real * g,
            1real <= g,
            0real < u,
    ;
    assert(u * rounding::size(x) <= 11real * u / 10real) by (nonlinear_arith)
        requires
            rounding::size(x) <= 11real / 10real,
            0real < u,
    ;
}

/// The divisor of undistorting: `s`.
proof fn lemma_divisor(k: real, n: real, rho: real, e: real, s: real, u: real, t: real)
    requires
        are_small(u, t),
        rounding::size(k) * 100real <= 35real,
        rounding::within(n, rho, 6real * u),
        0real <= rho,
        10000real * rho <= 10001real,
        rounding::within(e, k * n, u * rounding::size(k * n) + t),
        rounding::within(s, 1real + e, u * rounding::size(1real + e)),
    ensures
        rounding::within(s, 1real + k * rho, 5real * u),
        100real * rounding::size(k * rho) <= 36real,
        1000real * rounding::size(k * rho) <= 351real,
        1000real * s >= 648real,
        1000real * s <= 1352real,
{
    let d = n - rho;
    assert(k * n == k * rho + k * d) by (nonlinear_arith)
        requires
            d == n - rho,
    ;
    assert(100real * (k * d) <= 210real * u && -(100real * (k * d)) <= 210real * u)
        by (nonlinear_arith)
        requires
            -(6real * u) <= d <= 6real * u,
            -(35real) <= 100real * k <= 35real,
            0real < u,
    ;
    assert(1000real * (k * rho) <= 351real && -(1000real * (k * rho)) <= 351real)
        by (nonlinear_arith)
        requires
            0real <= rho,
            10000real * rho <= 10001real,
            -(35real) <= 100real * k <= 35real,
    ;
    assert(100real * (u * rounding::size(k * n)) <= 40real * u) by (nonlinear_arith)
        requires
            100real * rounding::size(k * n) <= 40real,
            0real < u,
    ;
    assert(100real * (u * rounding::size(1real + e)) <= 140real * u) by (nonlinear_arith)
        requires
            100real * rounding::size(1real + e) <= 140real,
            0real < u,
    ;
}

/// Where an offset is after undistorting, and after taking the centre off again.
proof fn lemma_offset(
    dx: real,
    s: real,
    x: real,
    gx: real,
    cx: real,
    qx: real,
    ex: real,
    r: real,
    u: real,
    t: real,
)
    requires
        are_small(u, t),
        1real <= r,
        1000real * rounding::size(dx) <= 1001real * r,
        1000real * rounding::size(cx) <= 1001real * r,
        1000real * s >= 648real,
        x * s == dx,
        rounding::within(gx, x, u * rounding::size(x) + t),
        rounding::within(qx, cx + gx, u * rounding::size(cx + gx)),
        rounding::within(ex, qx - cx, u * rounding::size(qx - cx)),
    ensures
        rounding::within(ex, x, 7real * u * r),
        100real * rounding::size(x) <= 155real * r,
{
    assert(100real * rounding::size(x) <= 155real * r) by (nonlinear_arith)
        requires
            x * s == dx,
            1000real * s >= 648real,
            -(1001real * r) <= 1000real * dx <= 1001real * r,
            1real <= r,
            rounding::size(x) == (if x < 0real {
                -x
            } else {
                x
            }),
    ;
    let ur = u * r;
    assert(1000000real * ur <= r && ur > 0real && t <= ur && 1000000real * t <= ur)
        by (nonlinear_arith)
        requires
            ur == u * r,
            0real < u,
            1000000000real * u <= 1real,
            1000000000real * t <= u,
            0real < t,
            1real <= r,
    ;
    assert(100real * (u * rounding::size(x)) <= 155real * ur) by (nonlinear_arith)
        requires
            100real * rounding::size(x) <= 155real * r,
            ur == u * r,
            0real < u,
    ;
    assert(100real * (u * rounding::size(cx + gx)) <= 260real * ur) by (nonlinear_arith)
        requires
            100real * rounding::size(cx + gx) <= 260real * r,
            ur == u * r,
            0real < u,
    ;
    assert(100real * (u * rounding::size(qx - cx)) <= 160real * ur) by (nonlinear_arith)
        requires
            100real * rounding::size(qx - cx) <= 160real * r,
            ur == u * r,
            0real < u,
    ;
    assert(7real * u * r == 7real * ur) by (nonlinear_arith)
        requires
            ur == u * r,
    ;
}

/// The squared ideal radius, from offsets that are a little off.
proof fn lemma_ideal_radius(
    x: real,
    y: real,
    ex: real,
    ey: real,
    s: real,
    rho: real,
    r: real,
    u: real,
)
    requires
        0real < u,
        1000000000real * u <= 1real,
        1real <= r,
        0real <= rho,
        10000real * rho <= 10001real,
        1000real * s >= 648real,
        (x * x + y * y) * (s * s) == rho * (r * r),
        rounding::within(ex, x, 7real * u * r),
        rounding::within(ey, y, 7real * u * r),
    ensures
        rounding::within(ex * ex + ey * ey, x * x + y * y, 31real * u * (r * r)),
        100real * (x * x + y * y) <= 239real * (r * r),
{
    let g = r * r;
    let sum = x * x + y * y;
    assert(g >= 1real) by (nonlinear_arith)
        requires
            g == r * r,
            1real <= r,
    ;
    assert(sum >= 0real) by (nonlinear_arith)
        requires
            sum == x * x + y * y,
    ;
    let ss = s * s;
    assert(10000real * ss >= 4199real) by (nonlinear_arith)
        requires
            ss == s * s,
            1000real * s >= 648real,
    ;
    assert(1000real * sum <= 2383real * g) by (nonlinear_arith)
        requires
            sum * ss == rho * g,
            10000real * ss >= 4199real,
            0real <= rho,
            10000real * rho <= 10001real,
            sum >= 0real,
            g >= 1real,
    ;
    let (ax, ay) = (rounding::size(x), rounding::size(y));
    let both = ax + ay;
    assert(ax * ax == x * x && ay * ay == y * y) by (nonlinear_arith)
        requires
            ax == x || ax == -x,
            ay == y || ay == -y,
    ;
    assert(both * both <= 2real * sum) by (nonlinear_arith)
        requires
            both == ax + ay,
            ax * ax == x * x,
            ay * ay == y * y,
            sum == x * x + y * y,
    {
        assert((ax - ay) * (ax - ay) >= 0real);
    }
    assert(100real * both <= 219real * r) by (nonlinear_arith)
        requires
            both * both <= 2real * sum,
            1000real * sum <= 2383real * g,
            g == r * r,
            1real <= r,
            both >= 0real,
    ;
    let ur = u * r;
    let (dx, dy) = (ex - x, ey - y);
    assert(7real * u * r == 7real * ur) by (nonlinear_arith)
        requires
            ur == u * r,
    ;
    assert(ur > 0real) by (nonlinear_arith)
        requires
            ur == u * r,
            0real < u,
            1real <= r,
    ;
    lemma_square_off(x, dx, 7real * ur);
    lemma_square_off(y, dy, 7real * ur);
    let ug = u * g;
    assert(7real * ur * (2real * both) <= 3066real * ug / 100real) by (nonlinear_arith)
        requires
            100real * both <= 219real * r,
            ur == u * r,
            ug == u * g,
            g == r * r,
            0real < u,
            1real <= r,
            both >= 0real,
    ;
    assert(1000real * (98real * (ur * ur)) <= ug) by (nonlinear_arith)
        requires
            ur == u * r,
            ug == u * g,
            g == r * r,
            0real < u,
            1000000000real * u <= 1real,
            g >= 1real,
    ;
    assert(7real * ur * (2real * ax + 7real * ur) + 7real * ur * (2real * ay + 7real * ur) == 7real
        * ur * (2real * both) + 98real * (ur * ur)) by (nonlinear_arith)
        requires
            both == ax + ay,
    ;
    assert(31real * u * g == 31real * ug) by (nonlinear_arith)
        requires
            ug == u * g,
    ;
    assert(ex * ex == (x + dx) * (x + dx) && ey * ey == (y + dy) * (y + dy));
}

proof fn lemma_square_off(x: real, d: real, e: real)
    requires
        -e <= d <= e,
        e >= 0real,
    ensures
        rounding::within((x + d) * (x + d), x * x, e * (2real * rounding::size(x) + e)),
{
    let a = rounding::size(x);
    let off = (x + d) * (x + d) - x * x;
    assert(off == 2real * (x * d) + d * d) by (nonlinear_arith)
        requires
            off == (x + d) * (x + d) - x * x,
    ;
    assert(x * d <= a * e && -(x * d) <= a * e) by (nonlinear_arith)
        requires
            -a <= x <= a,
            -e <= d <= e,
            a >= 0real,
    ;
    assert(d * d <= e * e && d * d >= 0real) by (nonlinear_arith)
        requires
            -e <= d <= e,
    ;
    assert(e * (2real * a + e) == 2real * (a * e) + e * e) by (nonlinear_arith);
}

/// The rounded ideal radius `ru`: root `l` over the normalizing radius.
proof fn lemma_rounded_radius(
    sum: real,
    c: real,
    l: real,
    v: real,
    ru: real,
    r: real,
    u: real,
    t: real,
)
    requires
        are_small(u, t),
        1real <= r,
        0real <= sum,
        100real * sum <= 240real * (r * r),
        rounding::within(c, sum, 3real * u * sum + 3real * t),
        0real <= l,
        rounding::within(l * l, c, 2real * u * c),
        v * r == l,
        rounding::within(ru, v, u * rounding::size(v) + t),
    ensures
        rounding::within(ru * ru * (r * r), sum, 21real * u * (r * r)),
        100real * (ru * ru) <= 241real,
        10real * rounding::size(ru) <= 16real,
{
    let g = r * r;
    let ug = u * g;
    let us = u * sum;
    assert(g >= 1real) by (nonlinear_arith)
        requires
            g == r * r,
            1real <= r,
    ;
    assert(100real * us <= 240real * ug && us >= 0real && 1000000000real * t <= ug
        && 1000000000real * ug <= g) by (nonlinear_arith)
        requires
            us == u * sum,
            ug == u * g,
            100real * sum <= 240real * g,
            sum >= 0real,
            0real < u,
            0real < t,
            1000000000real * t <= u,
            1000000000real * u <= 1real,
            g >= 1real,
    ;
    assert(3real * u * sum == 3real * us) by (nonlinear_arith)
        requires
            us == u * sum,
    ;
    assert(100real * (2real * u * c) <= 485real * ug && 2real * u * c >= -ug) by (nonlinear_arith)
        requires
            100real * c <= 242real * g,
            1000real * c >= -g,
            ug == u * g,
            0real < u,
            g >= 1real,
    ;
    let ll = l * l;
    assert(100real * (ll - sum) <= 1210real * ug && 100real * (sum - ll) <= 1210real * ug);
    assert(v >= 0real) by (nonlinear_arith)
        requires
            v * r == l,
            0real <= l,
            1real <= r,
    ;
    let vv = v * v;
    assert(vv * g == ll) by (nonlinear_arith)
        requires
            vv == v * v,
            v * r == l,
            g == r * r,
            ll == l * l,
    ;
    assert(1000real * vv <= 2401real) by (nonlinear_arith)
        requires
            vv * g == ll,
            1000real * ll <= 2401real * g,
            g >= 1real,
    ;
    assert(100real * v <= 156real) by (nonlinear_arith)
        requires
            vv == v * v,
            1000real * vv <= 2401real,
            v >= 0real,
    ;
    let e = u * v + t;
    assert(e >= 0real && 100real * e <= 157real * u) by (nonlinear_arith)
        requires
            e == u * v + t,
            100real * v <= 156real,
            v >= 0real,
            0real < u,
            0real < t,
            1000000000real * t <= u,
    ;
    lemma_square_off(v, ru - v, e);
    assert(100real * (e * (2real * v + e)) <= 500real * u) by (nonlinear_arith)
        requires
            e >= 0real,
            100real * e <= 157real * u,
            100real * v <= 156real,
            v >= 0real,
            0real < u,
            1000000000real * u <= 1real,
    ;
    let rr = ru * ru;
    assert(v + (ru - v) == ru);
    assert(rr - vv <= 5real * u && vv - rr <= 5real * u);
    assert((rr - vv) * g <= 5real * ug && -((rr - vv) * g) <= 5real * ug) by (nonlinear_arith)
        requires
            rr - vv <= 5real * u,
            vv - rr <= 5real * u,
            ug == u * g,
            g >= 1real,
    ;
    assert(rr * g == (rr - vv) * g + vv * g) by (nonlinear_arith);
    assert(21real * u * g == 21real * ug) by (nonlinear_arith)
        requires
            ug == u * g,
    ;
}

/// The discriminant, from the rounded radius; `sigma` is the squared ideal radius.
proof fn lemma_discriminant(
    k: real,
    ru: real,
    sigma: real,
    a: real,
    b: real,
    f: real,
    disc: real,
    u: real,
    t: real,
)
    requires
        are_small(u, t),
        rounding::size(k) * 100real <= 35real,
        100real * (ru * ru) <= 241real,
        10real * rounding::size(ru) <= 16real,
        rounding::within(ru * ru, sigma, 52real * u),
        rounding::within(a, 4real * k, u * rounding::size(4real * k) + t),
        rounding::within(b, a * ru, u * rounding::size(a * ru) + t),
        rounding::within(f, b * ru, u * rounding::size(b * ru) + t),
        rounding::within(disc, 1real - f, u * rounding::size(1real - f)),
    ensures
        rounding::within(disc, 1real - 4real * k * sigma, 92real * u),
        10real * rounding::size(disc) <= 44real,
{
    let m = 4real * k;
    assert(100real * (u * rounding::size(m)) <= 140real * u) by (nonlinear_arith)
        requires
            100real * rounding::size(m) <= 140real,
            0real < u,
    ;
    let (da, db, df) = (a - m, b - a * ru, f - b * ru);
    assert(100real * da <= 141real * u && -(100real * da) <= 141real * u);
    assert(100real * (da * ru) <= 226real * u && -(100real * (da * ru)) <= 226real * u)
        by (nonlinear_arith)
        requires
            -(141real * u) <= 100real * da <= 141real * u,
            -(16real) <= 10real * ru <= 16real,
            0real < u,
    ;
    assert(a * ru == m * ru + da * ru) by (nonlinear_arith)
        requires
            da == a - m,
    ;
    assert(100real * (m * ru) <= 224real && -(100real * (m * ru)) <= 224real) by (nonlinear_arith)
        requires
            -(140real) <= 100real * m <= 140real,
            -(16real) <= 10real * ru <= 16real,
    ;
    assert(100real * (u * rounding::size(a * ru)) <= 225real * u) by (nonlinear_arith)
        requires
            100real * rounding::size(a * ru) <= 225real,
            0real < u,
    ;
    assert(100real * db <= 226real * u && -(100real * db) <= 226real * u);
    let rr = ru * ru;
    assert(b * ru == m * rr + (da * ru) * ru + db * ru) by (nonlinear_arith)
        requires
            da == a - m,
            db == b - a * ru,
            rr == ru * ru,
    ;
    let dr = da * ru;
    assert(100real * (dr * ru) <= 362real * u && -(100real * (dr * ru)) <= 362real * u)
        by (nonlinear_arith)
        requires
            -(226real * u) <= 100real * dr <= 226real * u,
            -(16real) <= 10real * ru <= 16real,
            0real < u,
    ;
    assert(100real * (db * ru) <= 362real * u && -(100real * (db * ru)) <= 362real * u)
        by (nonlinear_arith)
        requires
            -(226real * u) <= 100real * db <= 226real * u,
            -(16real) <= 10real * ru <= 16real,
            0real < u,
    ;
    assert(rr >= 0real) by (nonlinear_arith)
        requires
            rr == ru * ru,
    ;
    assert(100real * (m * rr) <= 338real && -(100real * (m * rr)) <= 338real) by (nonlinear_arith)
        requires
            -(140real) <= 100real * m <= 140real,
            0real <= 100real * rr <= 241real,
    ;
    assert(100real * (u * rounding::size(b * ru)) <= 340real * u) by (nonlinear_arith)
        requires
            100real * rounding::size(b * ru) <= 340real,
            0real < u,
    ;
    let dg = rr - sigma;
    assert(100real * (m * dg) <= 7280real * u && -(100real * (m * dg)) <= 7280real * u)
        by (nonlinear_arith)
        requires
            -(52real * u) <= dg <= 52real * u,
            -(140real) <= 100real * m <= 140real,
            0real < u,
    ;
    assert(m * rr == m * sigma + m * dg) by (nonlinear_arith)
        requires
            dg == rr - sigma,
    ;
    assert(100real * (u * rounding::size(1real - f)) <= 439real * u) by (nonlinear_arith)
        requires
            100real * rounding::size(1real - f) <= 439real,
            0real < u,
    ;
    assert(4real * k * sigma == m * sigma);
}

/// The discriminant is a square: `w` is k1 times the squared measured radius, and `v`
/// is one more.
proof fn lemma_exact_discriminant(k: real, rho: real, s: real, sigma: real, w: real, v: real, u: real)
    requires
        0real < u,
        1000000000real * u <= 1real,
        w == k * rho,
        v == 1real + w,
        1000real * rounding::size(w) <= 351real,
        rounding::within(s, v, 5real * u),
        sigma * (s * s) == rho,
    ensures
        rounding::within((1real - 4real * k * sigma) * (v * v), (1real - w) * (1real - w), 35real * u),
{
    // 4 k sigma v v = 4 w (v v) / (s s).
    let (ss, vv) = (s * s, v * v);
    let a = k * sigma;
    assert(a * ss == w) by (nonlinear_arith)
        requires
            a == k * sigma,
            sigma * ss == rho,
            w == k * rho,
    ;
    assert(10000real * ss >= 4198real) by (nonlinear_arith)
        requires
            ss == s * s,
            10000real * s >= 6489real,
    ;
    assert(100real * a <= 84real && -(100real * a) <= 84real) by (nonlinear_arith)
        requires
            a * ss == w,
            10000real * ss >= 4198real,
            -(351real) <= 1000real * w <= 351real,
    ;
    let d = vv - ss;
    assert(d == (v - s) * (v + s)) by (nonlinear_arith)
        requires
            d == vv - ss,
            ss == s * s,
            vv == v * v,
    ;
    let (p, q) = (v - s, v + s);
    if w <= 0real {
        assert(4real * (a * (p * q)) <= 35real * u && -(4real * (a * (p * q))) <= 35real * u)
            by (nonlinear_arith)
            requires
                -(5real * u) <= p <= 5real * u,
                0real <= q,
                1000real * q <= 2001real,
                -(84real) <= 100real * a <= 84real,
                0real < u,
        {
            assert(1000real * (p * q) <= 10005real * u && -(1000real * (p * q)) <= 10005real * u);
        }
    } else {
        assert(100real * a <= 36real && a >= 0real) by (nonlinear_arith)
            requires
                a * ss == w,
                ss == s * s,
                1000real * s >= 999real,
                0real < w,
                1000real * w <= 351real,
        {
            assert(1000real * ss >= 998real);
        }
        assert(4real * (a * (p * q)) <= 35real * u && -(4real * (a * (p * q))) <= 35real * u)
            by (nonlinear_arith)
            requires
                -(5real * u) <= p <= 5real * u,
                0real <= q,
                1000real * q <= 2710real,
                0real <= a,
                100real * a <= 36real,
                0real < u,
        {
            assert(1000real * (p * q) <= 13550real * u && -(1000real * (p * q)) <= 13550real * u);
        }
    }
    assert(a * vv == w + a * d) by (nonlinear_arith)
        requires
            d == vv - ss,
            a * ss == w,
    ;
    assert((1real - w) * (1real - w) == vv - 4real * w) by (nonlinear_arith)
        requires
            vv == v * v,
            v == 1real + w,
    ;
    assert((1real - 4real * k * sigma) * vv == vv - 4real * (a * vv)) by (nonlinear_arith)
        requires
            a == k * sigma,
    ;
}

/// The factor of distorting, `f`, against the divisor of undistorting, `s`.
proof fn lemma_factor(
    disc: real,
    target: real,
    z: real,
    w: real,
    v: real,
    y: real,
    x: real,
    f: real,
    s: real,
    u: real,
    t: real,
)
    requires
        are_small(u, t),
        v == 1real + w,
        1000real * rounding::size(w) <= 351real,
        rounding::within(s, v, 5real * u),
        rounding::within(disc, target, 92real * u),
        10real * rounding::size(disc) <= 44real,
        rounding::within(target * (v * v), (1real - w) * (1real - w), 35real * u),
        0real <= z,
        rounding::within(z * z, disc, 2real * u * disc),
        rounding::within(y, 1real + z, u * rounding::size(1real + z)),
        x * y == 2real,
        rounding::within(f, x, u * rounding::size(x) + t),
    ensures
        rounding::within(f, s, 128real * u),
        10real * rounding::size(f) <= 14real,
{
    let (vv, zz) = (v * v, z * z);
    let b = 1real - w;
    assert(100real * (2real * u * disc) <= 880real * u && -(100real * (2real * u * disc)) <= 880real
        * u) by (nonlinear_arith)
        requires
            -(44real) <= 10real * disc <= 44real,
            0real < u,
    ;
    let d = zz - target;
    assert(10real * d <= 1009real * u && -(10real * d) <= 1009real * u);
    assert(0real <= vv && 1000real * vv <= 1826real) by (nonlinear_arith)
        requires
            vv == v * v,
            0real <= v,
            1000real * v <= 1351real,
    ;
    assert(d * vv <= 185real * u && -(d * vv) <= 185real * u) by (nonlinear_arith)
        requires
            -(1009real * u) <= 10real * d <= 1009real * u,
            0real <= vv,
            1000real * vv <= 1826real,
            0real < u,
    ;
    let a = z * v;
    assert(a * a == target * vv + d * vv) by (nonlinear_arith)
        requires
            a == z * v,
            d == zz - target,
            zz == z * z,
            vv == v * v,
    ;
    assert(a >= 0real) by (nonlinear_arith)
        requires
            a == z * v,
            0real <= z,
            0real <= v,
    ;
    let off = a - b;
    assert(off * (a + b) == a * a - b * b) by (nonlinear_arith)
        requires
            off == a - b,
    ;
    assert(off <= 340real * u && -off <= 340real * u) by (nonlinear_arith)
        requires
            off * (a + b) <= 220real * u,
            -(off * (a + b)) <= 220real * u,
            a >= 0real,
            1000real * b >= 649real,
            0real < u,
    ;
    assert(off <= 171real * u && -off <= 171real * u) by (nonlinear_arith)
        requires
            off * (a + b) <= 220real * u,
            -(off * (a + b)) <= 220real * u,
            1000real * (a + b) >= 1297real,
            0real < u,
    ;
    assert(100real * z <= 209real) by (nonlinear_arith)
        requires
            a == z * v,
            off == a - b,
            off <= 171real * u,
            1000000000real * u <= 1real,
            b == 2real - v,
            1000real * v >= 649real,
            0real <= z,
    ;
    assert(100real * (u * rounding::size(1real + z)) <= 309real * u) by (nonlinear_arith)
        requires
            100real * rounding::size(1real + z) <= 309real,
            0real < u,
    ;
    let dy = y - (1real + z);
    assert(100real * (dy * v) <= 418real * u && -(100real * (dy * v)) <= 418real * u)
        by (nonlinear_arith)
        requires
            -(309real * u) <= 100real * dy <= 309real * u,
            0real <= v,
            1000real * v <= 1351real,
            0real < u,
    ;
    assert(y * v == 2real + off + dy * v) by (nonlinear_arith)
        requires
            dy == y - (1real + z),
            off == z * v - (2real - v),
    ;
    assert(100real * z >= 47real) by (nonlinear_arith)
        requires
            a == z * v,
            off == a - b,
            -off <= 171real * u,
            1000000000real * u <= 1real,
            b == 2real - v,
            1000real * v <= 1351real,
            649real <= 1000real * v,
            0real <= z,
    ;
    let dx = x - v;
    assert(dx * y == -(off + dy * v)) by (nonlinear_arith)
        requires
            dx == x - v,
            x * y == 2real,
            y * v == 2real + off + dy * v,
    ;
    assert(dx <= 121real * u && -dx <= 121real * u) by (nonlinear_arith)
        requires
            dx * y <= 176real * u,
            -(dx * y) <= 176real * u,
            100real * y >= 146real,
            0real < u,
    ;
    assert(100real * (u * rounding::size(x)) <= 136real * u) by (nonlinear_arith)
        requires
            100real * rounding::size(x) <= 136real,
            0real < u,
    ;
}

/// The offset after distorting again, against the one measured.
proof fn lemma_back(
    dx: real,
    x: real,
    s: real,
    ex: real,
    f: real,
    o: real,
    cx: real,
    out: real,
    px: real,
    r: real,
    u: real,
    t: real,
)
    requires
        are_small(u, t),
        1real <= r,
        x * s == dx,
        1000real * rounding::size(dx) <= 1001real * r,
        1000real * rounding::size(cx) <= 1001real * r,
        100real * rounding::size(x) <= 155real * r,
        rounding::within(ex, x, 7real * u * r),
        rounding::within(f, s, 128real * u),
        10real * rounding::size(f) <= 14real,
        rounding::within(o, ex * f, u * rounding::size(ex * f) + t),
        rounding::within(out, cx + o, u * rounding::size(cx + o)),
        rounding::within(dx, px - cx, u * rounding::size(px - cx)),
        1000real * rounding::size(px - cx) <= 1001real * r,
    ensures
        rounding::within(out, px, 256real * u * r),
{
    let ur = u * r;
    assert(ur > 0real && 1000000000real * t <= ur && 1000000000real * ur <= r) by (nonlinear_arith)
        requires
            ur == u * r,
            0real < u,
            0real < t,
            1000000000real * t <= u,
            1000000000real * u <= 1real,
            1real <= r,
    ;
    assert(7real * u * r == 7real * ur && 256real * u * r == 256real * ur) by (nonlinear_arith)
        requires
            ur == u * r,
    ;
    let (d, g) = (ex - x, f - s);
    assert(10real * (d * f) <= 98real * ur && -(10real * (d * f)) <= 98real * ur)
        by (nonlinear_arith)
        requires
            -(7real * ur) <= d <= 7real * ur,
            -(14real) <= 10real * f <= 14real,
            ur > 0real,
    ;
    assert(x * g <= 199real * ur && -(x * g) <= 199real * ur) by (nonlinear_arith)
        requires
            -(128real * u) <= g <= 128real * u,
            -(155real * r) <= 100real * x <= 155real * r,
            ur == u * r,
            0real < u,
            1real <= r,
    ;
    assert(ex * f == dx + d * f + x * g) by (nonlinear_arith)
        requires
            d == ex - x,
            g == f - s,
            x * s == dx,
    ;
    assert(10real * (u * rounding::size(ex * f)) <= 11real * ur) by (nonlinear_arith)
        requires
            10real * rounding::size(ex * f) <= 11real * r,
            ur == u * r,
            0real < u,
    ;
    assert(10real * (u * rounding::size(cx + o)) <= 22real * ur) by (nonlinear_arith)
        requires
            10real * rounding::size(cx + o) <= 22real * r,
            ur == u * r,
            0real < u,
    ;
    assert(10real * (u * rounding::size(px - cx)) <= 11real * ur) by (nonlinear_arith)
        requires
            1000real * rounding::size(px - cx) <= 1001real * r,
            ur == u * r,
            0real < u,
            1real <= r,
    ;
}

/// How far points of a frame are from its centre, against the normalizing radius. All
/// six numbers of an axis are as computed: side, centre, and the offset from it.
proof fn lemma_in_radius(
    w: real,
    h: real,
    cx: real,
    cy: real,
    px: real,
    py: real,
    dx: real,
    dy: real,
    c: real,
    root: real,
    r: real,
    u: real,
    t: real,
)
    requires
        are_small(u, t),
        0real <= px <= w,
        0real <= py <= h,
        rounding::within(cx, w / 2real, u * (w / 2real) + t),
        rounding::within(cy, h / 2real, u * (h / 2real) + t),
        rounding::within(dx, px - cx, u * rounding::size(px - cx)),
        rounding::within(dy, py - cy, u * rounding::size(py - cy)),
        rounding::within(
            c,
            cx * cx + cy * cy,
            3real * u * (cx * cx + cy * cy) + 3real * t,
        ),
        0real <= root,
        rounding::within(root * root, c, 2real * u * c),
        root <= r,
        1real <= r,
    ensures
        1000real * rounding::size(px - cx) <= 1001real * r,
        1000real * rounding::size(py - cy) <= 1001real * r,
        1000real * rounding::size(dx) <= 1001real * r,
        1000real * rounding::size(dy) <= 1001real * r,
        1000real * rounding::size(cx) <= 1001real * r,
        1000real * rounding::size(cy) <= 1001real * r,
        10000real * (dx * dx + dy * dy) <= 10001real * (r * r),
{
    let g = r * r;
    let sum = cx * cx + cy * cy;
    assert(g >= 1real && root * root <= g) by (nonlinear_arith)
        requires
            g == r * r,
            1real <= r,
            0real <= root <= r,
    ;
    assert(sum >= 0real) by (nonlinear_arith)
        requires
            sum == cx * cx + cy * cy,
    ;
    let us = u * sum;
    assert(3real * u * sum == 3real * us && 1000000000real * us <= sum && us >= 0real)
        by (nonlinear_arith)
        requires
            us == u * sum,
            sum >= 0real,
            1000000000real * u <= 1real,
            0real < u,
    ;
    assert(1000000real * (2real * u * c) <= rounding::size(c)) by (nonlinear_arith)
        requires
            rounding::size(c) >= c,
            rounding::size(c) >= -c,
            0real < u,
            1000000000real * u <= 1real,
    ;
    assert(100000real * sum <= 100001real * g);
    assert(cx * cx >= 0real && cy * cy >= 0real) by (nonlinear_arith);
    lemma_axis(w, cx, px, dx, r, u, t, sum);
    lemma_axis(h, cy, py, dy, r, u, t, sum);
    assert(100000real * (dx * dx + dy * dy) <= 100001real * sum + g) by {
        assert(1000000real * (dx * dx) <= 1000001real * (cx * cx) + g);
        assert(1000000real * (dy * dy) <= 1000001real * (cy * cy) + g);
    }
}

/// One axis of the above.
proof fn lemma_axis(
    w: real,
    cx: real,
    px: real,
    dx: real,
    r: real,
    u: real,
    t: real,
    sum: real,
)
    requires
        are_small(u, t),
        1real <= r,
        0real <= px <= w,
        rounding::within(cx, w / 2real, u * (w / 2real) + t),
        rounding::within(dx, px - cx, u * rounding::size(px - cx)),
        cx * cx <= sum,
        100000real * sum <= 100001real * (r * r),
    ensures
        1000real * rounding::size(px - cx) <= 1001real * r,
        1000real * rounding::size(dx) <= 1001real * r,
        1000real * rounding::size(cx) <= 1001real * r,
        1000000real * (dx * dx) <= 1000001real * (cx * cx) + r * r,
{
    let v = w / 2real;
    let uv = u * v;
    assert(0real <= uv && 1000000000real * uv <= v) by (nonlinear_arith)
        requires
            uv == u * v,
            0real <= v,
            0real < u,
            1000000000real * u <= 1real,
    ;
    let a = rounding::size(cx);
    assert(a * a == cx * cx) by (nonlinear_arith)
        requires
            a == cx || a == -cx,
    ;
    assert(10000real * a <= 10001real * r) by (nonlinear_arith)
        requires
            a * a <= sum,
            100000real * sum <= 100001real * (r * r),
            1real <= r,
            a >= 0real,
    ;
    let b = rounding::size(px - cx);
    assert(100000000real * b <= 100000001real * a + 4real * 100000000real * t);
    let ub = u * b;
    assert(0real <= ub && 1000000000real * ub <= b) by (nonlinear_arith)
        requires
            ub == u * b,
            0real <= b,
            0real < u,
            1000000000real * u <= 1real,
    ;
    let e = rounding::size(dx);
    assert(e * e == dx * dx) by (nonlinear_arith)
        requires
            e == dx || e == -dx,
    ;
    assert(10000000real * e <= 10000001real * a + 50000000real * t);
    assert(100000000real * (50000000real * t) <= r);
    assert(1000000real * (e * e) <= 1000001real * (a * a) + r * r) by (nonlinear_arith)
        requires
            10000000real * e <= 10000001real * a + 50000000real * t,
            100000000real * (50000000real * t) <= r,
            10000real * a <= 10001real * r,
            0real <= a,
            0real <= e,
            0real < t,
            1real <= r,
    ;
}

/// Normalizing radii that no operation on offsets overflows with.
spec fn is_radius(r: real) -> bool {
    1real <= r && r <= 288230376151711744real
}

/// The doubles of one axis on the way there.
proof fn lemma_axis_there(dx: Double, s: Double, cx: Double, r: real)
    requires
        is_radius(r),
        dx.finite(),
        s.finite(),
        cx.finite(),
        1000real * rounding::size(rounding::real_of(dx)) <= 1001real * r,
        1000real * rounding::size(rounding::real_of(cx)) <= 1001real * r,
        1000real * rounding::real_of(s) >= 648real,
    ensures
        ({
            let q = double::sum(cx, double::quotient(dx, s));
            let e = double::difference(q, cx);
            let x = rounding::real_of(dx) / rounding::real_of(s);
            &&& q.finite()
            &&& e.finite()
            &&& x * rounding::real_of(s) == rounding::real_of(dx)
            &&& rounding::within(rounding::real_of(e), x, 7real * rounding::unit() * r)
            &&& rounding::within(
                rounding::real_of(q),
                rounding::real_of(cx) + x,
                7real * rounding::unit() * r,
            )
            &&& 100real * rounding::size(x) <= 155real * r
            &&& rounding::size(rounding::real_of(e)) <= 1152921504606846976real
        }),
{
    rounding::lemma_units_are_small();
    rounding::lemma_scales();
    let (u, t) = (rounding::unit(), rounding::tiny());
    let (d, v, c) = (rounding::real_of(dx), rounding::real_of(s), rounding::real_of(cx));
    let x = d / v;
    rounding::lemma_ratio(d, v);
    assert(100real * rounding::size(x) <= 155real * r) by (nonlinear_arith)
        requires
            x * v == d,
            1000real * v >= 648real,
            -(1001real * r) <= 1000real * d <= 1001real * r,
            1real <= r,
            rounding::size(x) == (if x < 0real {
                -x
            } else {
                x
            }),
    ;
    rounding::lemma_quotient(dx, s);
    let g = double::quotient(dx, s);
    let gx = rounding::real_of(g);
    assert(1000real * (u * rounding::size(x)) <= r && u * rounding::size(x) >= 0real)
        by (nonlinear_arith)
        requires
            100real * rounding::size(x) <= 155real * r,
            rounding::size(x) >= 0real,
            0real < u,
            1000000000real * u <= 1real,
            1real <= r,
    ;
    rounding::lemma_sum(cx, g);
    let q = double::sum(cx, g);
    let qx = rounding::real_of(q);
    assert(1000real * (u * rounding::size(c + gx)) <= r) by (nonlinear_arith)
        requires
            10real * rounding::size(c + gx) <= 30real * r,
            0real < u,
            1000000000real * u <= 1real,
            1real <= r,
    ;
    rounding::lemma_difference(q, cx);
    let ex = rounding::real_of(double::difference(q, cx));
    lemma_offset(d, v, x, gx, c, qx, ex, r, u, t);
    let ur = u * r;
    assert(7real * u * r == 7real * ur && 1000000000real * t <= ur && 1000000real * ur <= r)
        by (nonlinear_arith)
        requires
            ur == u * r,
            0real < u,
            1000000000real * t <= u,
            0real < t,
            1000000000real * u <= 1real,
            1real <= r,
    ;
    assert(u * rounding::size(c + gx) <= 3real * ur) by (nonlinear_arith)
        requires
            10real * rounding::size(c + gx) <= 30real * r,
            ur == u * r,
            0real < u,
    ;
    assert(u * rounding::size(x) <= 2real * ur) by (nonlinear_arith)
        requires
            100real * rounding::size(x) <= 155real * r,
            ur == u * r,
            0real < u,
            1real <= r,
    ;
}

/// The doubles of one axis on the way back.
proof fn lemma_axis_back(px: Double, dx: Double, s: real, x: real, e: Double, f: Double, cx: Double, r: real)
    requires
        is_radius(r),
        px.finite(),
        e.finite(),
        f.finite(),
        cx.finite(),
        x * s == rounding::real_of(dx),
        1000real * rounding::size(rounding::real_of(dx)) <= 1001real * r,
        1000real * rounding::size(rounding::real_of(cx)) <= 1001real * r,
        100real * rounding::size(x) <= 155real * r,
        rounding::within(rounding::real_of(e), x, 7real * rounding::unit() * r),
        rounding::within(rounding::real_of(f), s, 128real * rounding::unit()),
        10real * rounding::size(rounding::real_of(f)) <= 14real,
        rounding::within(
            rounding::real_of(dx),
            rounding::real_of(px) - rounding::real_of(cx),
            rounding::unit() * rounding::size(rounding::real_of(px) - rounding::real_of(cx)),
        ),
        1000real * rounding::size(rounding::real_of(px) - rounding::real_of(cx)) <= 1001real * r,
    ensures
        ({
            let out = double::sum(cx, double::product(e, f));
            &&& out.finite()
            &&& rounding::within(
                rounding::real_of(out),
                rounding::real_of(px),
                256real * rounding::unit() * r,
            )
        }),
{
    rounding::lemma_units_are_small();
    rounding::lemma_scales();
    let (u, t) = (rounding::unit(), rounding::tiny());
    let (ex, g, c) = (rounding::real_of(e), rounding::real_of(f), rounding::real_of(cx));
    assert(1000real * (7real * u * r) <= r) by (nonlinear_arith)
        requires
            0real < u,
            1000000000real * u <= 1real,
            1real <= r,
    ;
    assert(ex * g <= 3real * r && -(ex * g) <= 3real * r) by (nonlinear_arith)
        requires
            -(16real * r) <= 10real * ex <= 16real * r,
            -(14real) <= 10real * g <= 14real,
            1real <= r,
    ;
    rounding::lemma_product(e, f);
    let p = double::product(e, f);
    let o = rounding::real_of(p);
    assert(1000real * (u * rounding::size(ex * g)) <= r) by (nonlinear_arith)
        requires
            rounding::size(ex * g) <= 3real * r,
            0real < u,
            1000000000real * u <= 1real,
            1real <= r,
    ;
    rounding::lemma_sum(cx, p);
    let out = rounding::real_of(double::sum(cx, p));
    lemma_back(
        rounding::real_of(dx),
        x,
        s,
        ex,
        g,
        o,
        c,
        out,
        rounding::real_of(px),
        r,
        u,
        t,
    );
}

/// The divisor of undistorting, in doubles; `rho` is the exact squared radius.
proof fn lemma_divisor_of(d: Distortion, dx: Double, dy: Double, rho: real)
    requires
        is_radius(rounding::real_of(d.r0)),
        d.r0.finite(),
        d.k1.finite(),
        rounding::size(rounding::real_of(d.k1)) * 100real <= 35real,
        dx.finite(),
        dy.finite(),
        1000real * rounding::size(rounding::real_of(dx)) <= 1001real * rounding::real_of(d.r0),
        1000real * rounding::size(rounding::real_of(dy)) <= 1001real * rounding::real_of(d.r0),
        0real <= rho,
        10000real * rho <= 10001real,
        rho * (rounding::real_of(d.r0) * rounding::real_of(d.r0)) == rounding::real_of(dx)
            * rounding::real_of(dx) + rounding::real_of(dy) * rounding::real_of(dy),
    ensures
        ({
            let s = d.divisor(dx, dy);
            let w = rounding::real_of(d.k1) * rho;
            &&& s.finite()
            &&& rounding::within(rounding::real_of(s), 1real + w, 5real * rounding::unit())
            &&& 1000real * rounding::size(w) <= 351real
            &&& 1000real * rounding::real_of(s) >= 648real
            &&& 1000real * rounding::real_of(s) <= 1352real
        }),
{
    rounding::lemma_units_are_small();
    rounding::lemma_scales();
    rounding::lemma_constants();
    let (u, t) = (rounding::unit(), rounding::tiny());
    let r = rounding::real_of(d.r0);
    let g = r * r;
    let k = rounding::real_of(d.k1);
    assert(1real <= g <= 83076749736557242056487941267521536real) by (nonlinear_arith)
        requires
            g == r * r,
            1real <= r <= 288230376151711744real,
    ;
    rounding::lemma_square_sum(dx, dy);
    rounding::lemma_product(d.r0, d.r0);
    let cd = double::sum(double::product(dx, dx), double::product(dy, dy));
    let qd = double::product(d.r0, d.r0);
    let (c, q) = (rounding::real_of(cd), rounding::real_of(qd));
    let s = rho * g;
    assert(1000000real * (u * g) <= g && u * g >= 0real) by (nonlinear_arith)
        requires
            0real < u,
            1000000000real * u <= 1real,
            1real <= g,
    ;
    assert(2real * q >= g);
    rounding::lemma_ratio(c, q);
    let x = c / q;
    assert(0real <= s <= 2real * g) by (nonlinear_arith)
        requires
            s == rho * g,
            0real <= rho,
            10000real * rho <= 10001real,
            1real <= g,
    ;
    assert(3real * u * s <= g) by (nonlinear_arith)
        requires
            0real <= s <= 2real * g,
            0real < u,
            1000000000real * u <= 1real,
            1real <= g,
    ;
    assert(rounding::size(x) <= 10real) by (nonlinear_arith)
        requires
            x * q == c,
            2real * q >= g,
            0real <= c,
            c <= 4real * g,
            1real <= g,
            rounding::size(x) == (if x < 0real {
                -x
            } else {
                x
            }),
    ;
    rounding::lemma_quotient(cd, qd);
    let nd = double::quotient(cd, qd);
    let n = rounding::real_of(nd);
    lemma_squared_radius(c, q, x, n, g, rho, u, t);
    assert(k * n <= 1real && -(k * n) <= 1real) by (nonlinear_arith)
        requires
            -(35real) <= 100real * k <= 35real,
            -(2real) <= n <= 2real,
    ;
    rounding::lemma_product(d.k1, nd);
    let ed = double::product(d.k1, nd);
    let e = rounding::real_of(ed);
    assert(u * rounding::size(k * n) <= 1real) by (nonlinear_arith)
        requires
            rounding::size(k * n) <= 1real,
            0real < u,
            1000000000real * u <= 1real,
    ;
    let one = Double { bits: distortion::ONE };
    rounding::lemma_sum(one, ed);
    let sd = double::sum(one, ed);
    lemma_divisor(k, n, rho, e, rounding::real_of(sd), u, t);
    let least = Double { bits: distortion::LEAST_DIVISOR };
    let half = Double { bits: 0x3fe0_0000_0000_0000 };
    magnitude::lemma_units_increase(least.bits as int, half.bits as int);
    rounding::lemma_absolute(sd);
    rounding::lemma_order(sd.size(), half);
    rounding::lemma_parts(half);
    assert(rounding::real_of(half) * 2real == 1real) by (nonlinear_arith)
        requires
            rounding::real_of(half) * rounding::unit_count() == half.value() as real,
            2 * half.value() == power2::pow2(1074),
            rounding::unit_count() == power2::pow2(1074) as int as real,
            rounding::unit_count() > 0real,
    ;
}

/// The squared ideal radius over the squared normalizing radius, as it is and as
/// computed.
proof fn lemma_normalized(ruru: real, e2: real, sum: real, sigma: real, g: real, u: real)
    requires
        1real <= g,
        0real < u,
        rounding::within(ruru * g, e2, 21real * u * g),
        rounding::within(e2, sum, 31real * u * g),
        sigma * g == sum,
    ensures
        rounding::within(ruru, sigma, 52real * u),
{
    let d = ruru - sigma;
    let ug = u * g;
    assert(21real * u * g == 21real * ug && 31real * u * g == 31real * ug) by (nonlinear_arith)
        requires
            ug == u * g,
    ;
    assert(d * g == ruru * g - sum) by (nonlinear_arith)
        requires
            d == ruru - sigma,
            sigma * g == sum,
    ;
    assert(d <= 52real * u && -d <= 52real * u) by (nonlinear_arith)
        requires
            d * g <= 52real * ug,
            -(d * g) <= 52real * ug,
            ug == u * g,
            1real <= g,
            0real < u,
    ;
}

/// The rounded ideal radius, in doubles.
proof fn lemma_radius_of(d: Distortion, ex: Double, ey: Double, x: real, y: real, s: real, rho: real)
    requires
        is_radius(rounding::real_of(d.r0)),
        d.r0.finite(),
        ex.finite(),
        ey.finite(),
        rounding::size(rounding::real_of(ex)) <= 1152921504606846976real,
        rounding::size(rounding::real_of(ey)) <= 1152921504606846976real,
        0real <= rho,
        10000real * rho <= 10001real,
        1000real * s >= 648real,
        (x * x + y * y) * (s * s) == rho * (rounding::real_of(d.r0) * rounding::real_of(d.r0)),
        rounding::within(
            rounding::real_of(ex),
            x,
            7real * rounding::unit() * rounding::real_of(d.r0),
        ),
        rounding::within(
            rounding::real_of(ey),
            y,
            7real * rounding::unit() * rounding::real_of(d.r0),
        ),
    ensures
        ({
            let ru = d.radius(ex, ey);
            let v = rounding::real_of(ru);
            &&& ru.finite()
            &&& 100real * (v * v) <= 241real
            &&& 10real * rounding::size(v) <= 16real
            &&& v >= -rounding::tiny()
            &&& exists|sigma: real| #[trigger]
                rounding::within(v * v, sigma, 52real * rounding::unit()) && sigma * (s * s) == rho
        }),
{
    rounding::lemma_units_are_small();
    rounding::lemma_scales();
    let (u, t) = (rounding::unit(), rounding::tiny());
    let r = rounding::real_of(d.r0);
    let g = r * r;
    assert(1real <= g) by (nonlinear_arith)
        requires
            g == r * r,
            1real <= r,
    ;
    let (a, b) = (rounding::real_of(ex), rounding::real_of(ey));
    lemma_ideal_radius(x, y, a, b, s, rho, r, u);
    let sum = x * x + y * y;
    let e2 = a * a + b * b;
    assert(31real * u * g <= g / 1000real) by (nonlinear_arith)
        requires
            0real < u,
            1000000000real * u <= 1real,
            1real <= g,
    ;
    assert(e2 >= 0real) by (nonlinear_arith)
        requires
            e2 == a * a + b * b,
    ;
    rounding::lemma_square_sum(ex, ey);
    let cd = double::sum(double::product(ex, ex), double::product(ey, ey));
    rounding::lemma_root(cd);
    let ld = double::root(cd);
    let l = rounding::real_of(ld);
    let c = rounding::real_of(cd);
    rounding::lemma_ratio(l, r);
    let v = l / r;
    assert(3real * u * e2 <= g && 2real * u * c <= g) by (nonlinear_arith)
        requires
            0real <= e2 <= 3real * g,
            c <= e2 + (3real * u * e2 + 3real * t),
            c >= 0real,
            0real < u,
            1000000000real * u <= 1real,
            0real < t,
            1000000000real * t <= u,
            1real <= g,
    {
        assert(3real * u * e2 <= g);
        assert(c <= 10real * g);
    }
    assert(rounding::size(v) <= 10real) by (nonlinear_arith)
        requires
            v * r == l,
            0real <= l,
            l * l <= 20real * g,
            g == r * r,
            1real <= r,
            rounding::size(v) == (if v < 0real {
                -v
            } else {
                v
            }),
    ;
    rounding::lemma_quotient(ld, d.r0);
    let ru = rounding::real_of(d.radius(ex, ey));
    assert(v >= 0real && u * rounding::size(v) <= v) by (nonlinear_arith)
        requires
            v * r == l,
            0real <= l,
            1real <= r,
            0real < u,
            1000000000real * u <= 1real,
            rounding::size(v) == (if v < 0real {
                -v
            } else {
                v
            }),
    ;
    lemma_rounded_radius(e2, c, l, v, ru, r, u, t);
    let sigma = sum / g;
    rounding::lemma_ratio(sum, g);
    lemma_normalized(ru * ru, e2, sum, sigma, g, u);
    let ss = s * s;
    assert(sigma * ss == rho) by (nonlinear_arith)
        requires
            sigma * g == sum,
            sum * ss == rho * g,
            1real <= g,
    ;
}

/// The factor of distorting, in doubles, where the point is not at the centre.
proof fn lemma_stretch_of(d: Distortion, ex: Double, ey: Double, rho: real, s: real, sigma: real)
    requires
        d.k1.finite(),
        rounding::size(rounding::real_of(d.k1)) * 100real <= 35real,
        d.radius(ex, ey).finite(),
        ({
            let v = rounding::real_of(d.radius(ex, ey));
            let w = rounding::real_of(d.k1) * rho;
            &&& 100real * (v * v) <= 241real
            &&& 10real * rounding::size(v) <= 16real
            &&& rounding::within(v * v, sigma, 52real * rounding::unit())
            &&& 1000real * rounding::size(w) <= 351real
            &&& rounding::within(s, 1real + w, 5real * rounding::unit())
        }),
        sigma * (s * s) == rho,
    ensures
        ({
            let f = d.stretch(ex, ey);
            &&& !d.discriminant(d.radius(ex, ey)).less(Double { bits: 0 })
            &&& f.finite()
            &&& rounding::within(rounding::real_of(f), s, 128real * rounding::unit())
            &&& 10real * rounding::size(rounding::real_of(f)) <= 14real
        }),
{
    rounding::lemma_units_are_small();
    rounding::lemma_scales();
    rounding::lemma_constants();
    let (u, t) = (rounding::unit(), rounding::tiny());
    let k = rounding::real_of(d.k1);
    let rd = d.radius(ex, ey);
    let ru = rounding::real_of(rd);
    let (one, two, four) = (
        Double { bits: distortion::ONE },
        Double { bits: distortion::TWO },
        Double { bits: distortion::FOUR },
    );
    rounding::lemma_product(four, d.k1);
    let ad = double::product(four, d.k1);
    let a = rounding::real_of(ad);
    assert(u * rounding::size(4real * k) <= 1real) by (nonlinear_arith)
        requires
            rounding::size(4real * k) <= 2real,
            0real < u,
            1000000000real * u <= 1real,
    ;
    assert(a * ru <= 16real && -(a * ru) <= 16real) by (nonlinear_arith)
        requires
            -(4real) <= a <= 4real,
            -(4real) <= ru <= 4real,
    ;
    rounding::lemma_product(ad, rd);
    let bd = double::product(ad, rd);
    let b = rounding::real_of(bd);
    assert(u * rounding::size(a * ru) <= 1real) by (nonlinear_arith)
        requires
            rounding::size(a * ru) <= 16real,
            0real < u,
            1000000000real * u <= 1real,
    ;
    assert(b * ru <= 100real && -(b * ru) <= 100real) by (nonlinear_arith)
        requires
            -(20real) <= b <= 20real,
            -(4real) <= ru <= 4real,
    ;
    rounding::lemma_product(bd, rd);
    let fd = double::product(bd, rd);
    let f = rounding::real_of(fd);
    assert(u * rounding::size(b * ru) <= 1real) by (nonlinear_arith)
        requires
            rounding::size(b * ru) <= 100real,
            0real < u,
            1000000000real * u <= 1real,
    ;
    rounding::lemma_difference(one, fd);
    let discd = d.discriminant(rd);
    let disc = rounding::real_of(discd);
    lemma_discriminant(k, ru, sigma, a, b, f, disc, u, t);
    let w = k * rho;
    let v = 1real + w;
    lemma_exact_discriminant(k, rho, s, sigma, w, v, u);
    let target = 1real - 4real * k * sigma;
    assert(100real * disc >= 10real) by (nonlinear_arith)
        requires
            rounding::within(target * (v * v), (1real - w) * (1real - w), 35real * u)
                == (target * (v * v) - (1real - w) * (1real - w) <= 35real * u && (1real - w) * (
            1real - w) - target * (v * v) <= 35real * u),
            rounding::within(target * (v * v), (1real - w) * (1real - w), 35real * u),
            target - disc <= 92real * u,
            v == 1real + w,
            -(351real) <= 1000real * w <= 351real,
            0real < u,
            1000000000real * u <= 1real,
    {
        assert((1real - w) * (1real - w) >= 42real / 100real);
        assert(target * (v * v) >= 41real / 100real);
        assert(v * v <= 2real);
        assert(target >= 20real / 100real);
    }
    rounding::lemma_order(discd, Double { bits: 0 });
    rounding::lemma_root(discd);
    let zd = double::root(discd);
    let z = rounding::real_of(zd);
    assert(2real * u * disc <= 1real) by (nonlinear_arith)
        requires
            10real * disc <= 44real,
            0real < u,
            1000000000real * u <= 1real,
    ;
    assert(z <= 4real) by (nonlinear_arith)
        requires
            z * z <= 6real,
            0real <= z,
    ;
    rounding::lemma_sum(one, zd);
    let yd = double::sum(one, zd);
    let y = rounding::real_of(yd);
    assert(u * rounding::size(1real + z) <= 1real / 2real) by (nonlinear_arith)
        requires
            rounding::size(1real + z) <= 5real,
            0real < u,
            1000000000real * u <= 1real,
    ;
    rounding::lemma_ratio(2real, y);
    let x = 2real / y;
    assert(rounding::size(x) <= 4real) by (nonlinear_arith)
        requires
            x * y == 2real,
            2real * y >= 1real,
            rounding::size(x) == (if x < 0real {
                -x
            } else {
                x
            }),
    ;
    rounding::lemma_quotient(two, yd);
    lemma_factor(disc, target, z, w, v, y, x, rounding::real_of(d.stretch(ex, ey)), s, u, t);
}

/// Near the centre the lens bends less than rounding does.
proof fn lemma_at_centre(
    q: real,
    c: real,
    x: real,
    dx: real,
    px: real,
    s: real,
    w: real,
    rho: real,
    k: real,
    sigma: real,
    vv: real,
    r: real,
    u: real,
)
    requires
        0real < u,
        1000000000real * u <= 1real,
        1real <= r,
        rounding::size(k) * 100real <= 35real,
        rounding::within(q, c + x, 7real * u * r),
        x * s == dx,
        100real * rounding::size(x) <= 155real * r,
        w == k * rho,
        rounding::within(s, 1real + w, 5real * u),
        1000real * s >= 648real,
        1000real * s <= 1352real,
        sigma * (s * s) == rho,
        rounding::within(vv, sigma, 52real * u),
        4real * vv <= u,
        rho >= 0real,
        rounding::within(dx, px - c, u * rounding::size(px - c)),
        1000real * rounding::size(px - c) <= 1001real * r,
    ensures
        rounding::within(q, px, 256real * u * r),
{
    let ur = u * r;
    assert(7real * u * r == 7real * ur && 256real * u * r == 256real * ur && ur > 0real)
        by (nonlinear_arith)
        requires
            ur == u * r,
            0real < u,
            1real <= r,
    ;
    let ss = s * s;
    assert(0real <= ss <= 183real / 100real) by (nonlinear_arith)
        requires
            ss == s * s,
            0real <= 1000real * s <= 1352real,
    ;
    assert(rho <= 97real * u) by (nonlinear_arith)
        requires
            sigma * ss == rho,
            sigma <= 53real * u,
            0real <= ss <= 183real / 100real,
            0real < u,
    ;
    assert(w <= 34real * u && -w <= 34real * u) by (nonlinear_arith)
        requires
            w == k * rho,
            -(35real) <= 100real * k <= 35real,
            0real <= rho <= 97real * u,
            0real < u,
    ;
    let m = s - 1real;
    assert(x * m <= 61real * ur && -(x * m) <= 61real * ur) by (nonlinear_arith)
        requires
            -(39real * u) <= m <= 39real * u,
            -(155real * r) <= 100real * x <= 155real * r,
            ur == u * r,
            0real < u,
            1real <= r,
    ;
    assert(dx == x + x * m) by (nonlinear_arith)
        requires
            x * s == dx,
            m == s - 1real,
    ;
    assert(u * rounding::size(px - c) <= 2real * ur) by (nonlinear_arith)
        requires
            1000real * rounding::size(px - c) <= 1001real * r,
            ur == u * r,
            0real < u,
            1real <= r,
    ;
}

/// The lens model of a frame.
pub open spec fn lens_of(w: int, h: int, k1: Double) -> Distortion {
    Distortion {
        k1,
        cx: distortion::half(w),
        cy: distortion::half(h),
        r0: distortion::half_diagonal(w, h),
    }
}

/// A point of a frame.
pub open spec fn is_in_frame(w: int, h: int, p: Point) -> bool {
    &&& p[0].finite()
    &&& p[1].finite()
    &&& 0real <= rounding::real_of(p[0]) <= w as real
    &&& 0real <= rounding::real_of(p[1]) <= h as real
}

/// The centre and the normalizing radius of a frame, in reals.
proof fn lemma_lens(w: int, h: int, p: Point)
    requires
        0 <= w < 0x20_0000_0000_0000,
        0 <= h < 0x20_0000_0000_0000,
        is_in_frame(w, h, p),
    ensures
        ({
            let (cx, cy) = (distortion::half(w), distortion::half(h));
            let r0 = distortion::half_diagonal(w, h);
            let (dx, dy) = (double::difference(p[0], cx), double::difference(p[1], cy));
            let r = rounding::real_of(r0);
            let (a, b) = (rounding::real_of(dx), rounding::real_of(dy));
            let (x, y) = (
                rounding::real_of(p[0]) - rounding::real_of(cx),
                rounding::real_of(p[1]) - rounding::real_of(cy),
            );
            &&& cx.finite() && cy.finite() && r0.finite() && dx.finite() && dy.finite()
            &&& is_radius(r)
            &&& rounding::within(a, x, rounding::unit() * rounding::size(x))
            &&& rounding::within(b, y, rounding::unit() * rounding::size(y))
            &&& 1000real * rounding::size(x) <= 1001real * r
            &&& 1000real * rounding::size(y) <= 1001real * r
            &&& 1000real * rounding::size(a) <= 1001real * r
            &&& 1000real * rounding::size(b) <= 1001real * r
            &&& 1000real * rounding::size(rounding::real_of(cx)) <= 1001real * r
            &&& 1000real * rounding::size(rounding::real_of(cy)) <= 1001real * r
            &&& 10000real * (a * a + b * b) <= 10001real * (r * r)
        }),
{
    rounding::lemma_units_are_small();
    rounding::lemma_scales();
    rounding::lemma_constants();
    let (u, t) = (rounding::unit(), rounding::tiny());
    let two = Double { bits: distortion::TWO };
    let one = Double { bits: distortion::ONE };
    double::lemma_whole(w);
    double::lemma_whole(h);
    rounding::lemma_whole_real(double::whole(w), w);
    rounding::lemma_whole_real(double::whole(h), h);
    let (wr, hr) = (w as real, h as real);
    assert(u * (wr / 2real) <= 1real * wr && u * (hr / 2real) <= 1real * hr && u * (wr / 2real)
        >= 0real && u * (hr / 2real) >= 0real) by (nonlinear_arith)
        requires
            0real < u,
            1000000000real * u <= 1real,
            0real <= wr,
            0real <= hr,
    ;
    rounding::lemma_quotient(double::whole(w), two);
    rounding::lemma_quotient(double::whole(h), two);
    let (cx, cy) = (distortion::half(w), distortion::half(h));
    let (a, b) = (rounding::real_of(cx), rounding::real_of(cy));
    let (px, py) = (rounding::real_of(p[0]), rounding::real_of(p[1]));
    rounding::lemma_difference(p[0], cx);
    rounding::lemma_difference(p[1], cy);
    let (dx, dy) = (double::difference(p[0], cx), double::difference(p[1], cy));
    rounding::lemma_square_sum(cx, cy);
    let cd = double::sum(double::product(cx, cx), double::product(cy, cy));
    rounding::lemma_root(cd);
    let ld = double::root(cd);
    let r0 = distortion::half_diagonal(w, h);
    rounding::lemma_order(ld, one);
    let (c, l, r) = (rounding::real_of(cd), rounding::real_of(ld), rounding::real_of(r0));
    let m = 18014398509481984real;
    assert(c <= 10real * (m * m)) by (nonlinear_arith)
        requires
            c <= (a * a + b * b) + (3real * u * (a * a + b * b) + 3real * t),
            -m <= a <= m,
            -m <= b <= m,
            m == 18014398509481984real,
            0real < u,
            1000000000real * u <= 1real,
            0real < t <= 1real,
    {
        let q = a * a + b * b;
        assert(0real <= q <= 2real * (m * m));
        assert(3real * u * q <= q);
    }
    assert(l <= 5real * m) by (nonlinear_arith)
        requires
            l * l <= c + 2real * u * c,
            0real <= c <= 10real * (m * m),
            0real <= l,
            m == 18014398509481984real,
            0real < u,
            1000000000real * u <= 1real,
    {
        assert(2real * u * c <= c);
        assert(l * l <= 20real * (m * m));
    }
    lemma_in_radius(
        wr,
        hr,
        a,
        b,
        px,
        py,
        rounding::real_of(dx),
        rounding::real_of(dy),
        c,
        l,
        r,
        u,
        t,
    );
}

/// Distorting an undistorted point gives it back: for every k1 that a calibration
/// can have and every point of the frame, either coordinate is within 2^-44 of the
/// normalizing radius of what it was. That is less than 1e-9 px for every frame
/// whose half diagonal is no longer than 16384 px.
pub proof fn law_distorting_undoes_undistorting(w: int, h: int, k1: Double, p: Point)
    requires
        0 <= w < 0x20_0000_0000_0000,
        0 <= h < 0x20_0000_0000_0000,
        k1.finite(),
        !(Double { bits: calib::MAX_ABS_K1 }).less(k1.size()),
        is_in_frame(w, h, p),
    ensures
        ({
            let lens = lens_of(w, h, k1);
            let q = lens.distorted(lens.undistorted(p));
            let r = rounding::real_of(lens.r0);
            &&& q[0].finite()
            &&& q[1].finite()
            &&& rounding::within(
                rounding::real_of(q[0]),
                rounding::real_of(p[0]),
                r / 17592186044416real,
            )
            &&& rounding::within(
                rounding::real_of(q[1]),
                rounding::real_of(p[1]),
                r / 17592186044416real,
            )
            &&& r <= 16384real ==> rounding::within(
                rounding::real_of(q[0]),
                rounding::real_of(p[0]),
                1real / 1000000000real,
            )
            &&& r <= 16384real ==> rounding::within(
                rounding::real_of(q[1]),
                rounding::real_of(p[1]),
                1real / 1000000000real,
            )
        }),
{
    let d = lens_of(w, h, k1);
    rounding::lemma_units_are_small();
    rounding::lemma_constants();
    lemma_lens(w, h, p);
    lemma_k1_size(k1);
    let (u, t) = (rounding::unit(), rounding::tiny());
    let r = rounding::real_of(d.r0);
    let (dx, dy) = (double::difference(p[0], d.cx), double::difference(p[1], d.cy));
    let (a, b) = (rounding::real_of(dx), rounding::real_of(dy));
    let g = r * r;
    assert(g >= 1real) by (nonlinear_arith)
        requires
            g == r * r,
            1real <= r,
    ;
    assert(256real * u * r == r / 17592186044416real) by (nonlinear_arith)
        requires
            u * 4503599627370496real == 1real,
    ;
    let q = d.undistorted(p);
    let out = d.distorted(q);
    if !d.is_identity() {
        let sum = a * a + b * b;
        let rho = sum / g;
        rounding::lemma_ratio(sum, g);
        assert(0real <= rho && 10000real * rho <= 10001real) by (nonlinear_arith)
            requires
                rho * g == sum,
                sum == a * a + b * b,
                10000real * sum <= 10001real * g,
                g >= 1real,
        {
            assert(sum >= 0real);
        }
        lemma_divisor_of(d, dx, dy, rho);
        let sd = d.divisor(dx, dy);
        let s = rounding::real_of(sd);
        let k = rounding::real_of(k1);
        lemma_axis_there(dx, sd, d.cx, r);
        lemma_axis_there(dy, sd, d.cy, r);
        let (x, y) = (a / s, b / s);
        let (ex, ey) = (double::difference(q[0], d.cx), double::difference(q[1], d.cy));
        assert((x * x + y * y) * (s * s) == rho * g) by (nonlinear_arith)
            requires
                x * s == a,
                y * s == b,
                rho * g == a * a + b * b,
        ;
        lemma_radius_of(d, ex, ey, x, y, s, rho);
        let ru = d.radius(ex, ey);
        let v = rounding::real_of(ru);
        let sigma = choose|sigma: real| #[trigger]
            rounding::within(v * v, sigma, 52real * u) && sigma * (s * s) == rho;
        if ru.less(Double { bits: distortion::AT_CENTRE }) {
            lemma_centre_radius(ru);
            lemma_at_centre(
                rounding::real_of(q[0]),
                rounding::real_of(d.cx),
                x,
                a,
                rounding::real_of(p[0]),
                s,
                k * rho,
                rho,
                k,
                sigma,
                v * v,
                r,
                u,
            );
            lemma_at_centre(
                rounding::real_of(q[1]),
                rounding::real_of(d.cy),
                y,
                b,
                rounding::real_of(p[1]),
                s,
                k * rho,
                rho,
                k,
                sigma,
                v * v,
                r,
                u,
            );
            assert(out == q);
        } else {
            lemma_stretch_of(d, ex, ey, rho, s, sigma);
            let f = d.stretch(ex, ey);
            lemma_axis_back(p[0], dx, s, x, ex, f, d.cx, r);
            lemma_axis_back(p[1], dy, s, y, ey, f, d.cy, r);
        }
    }
}

/// The largest k1 of a calibration is 0.35 at most.
proof fn lemma_k1_size(k1: Double)
    requires
        k1.finite(),
        !(Double { bits: calib::MAX_ABS_K1 }).less(k1.size()),
    ensures
        rounding::size(rounding::real_of(k1)) * 100real <= 35real,
{
    let most = Double { bits: calib::MAX_ABS_K1 };
    rounding::lemma_absolute(k1);
    rounding::lemma_order(most, k1.size());
    rounding::lemma_parts(most);
    rounding::lemma_scales();
    power2::lemma2_to64();
    power2::lemma_pow2_adds(54, 1020);
    power2::lemma2_to64_rest();
    assert(magnitude::exponent(0x3fd6_6666_6666_6666) == 1020);
    assert(magnitude::significand(0x3fd6_6666_6666_6666) == 0x16_6666_6666_6666);
    let e = power2::pow2(1020) as int;
    assert(100 * most.value() <= 35 * power2::pow2(1074) as int) by (nonlinear_arith)
        requires
            most.value() == 0x16_6666_6666_6666 * e,
            power2::pow2(1074) as int == 0x40_0000_0000_0000 * e,
            e >= 0,
    ;
    let (x, p) = (rounding::real_of(most), rounding::unit_count());
    assert(100real * x <= 35real) by (nonlinear_arith)
        requires
            x * p == most.value() as real,
            100 * most.value() <= 35 * power2::pow2(1074) as int,
            p == power2::pow2(1074) as int as real,
            p > 0real,
    ;
}

/// A radius that counts as the centre is below 2^-27.
proof fn lemma_centre_radius(ru: Double)
    requires
        ru.finite(),
        ru.less(Double { bits: distortion::AT_CENTRE }),
        rounding::real_of(ru) >= -rounding::tiny(),
    ensures
        4real * (rounding::real_of(ru) * rounding::real_of(ru)) <= rounding::unit(),
{
    let small = Double { bits: 0x3e40_0000_0000_0000 };
    rounding::lemma_order(ru, small);
    rounding::lemma_parts(small);
    rounding::lemma_scales();
    rounding::lemma_units_are_small();
    magnitude::lemma_units_increase(distortion::AT_CENTRE as int, small.bits as int);
    power2::lemma2_to64();
    power2::lemma2_to64_rest();
    power2::lemma_pow2_adds(52, 995);
    power2::lemma_pow2_adds(27, 1047);
    assert(magnitude::exponent(0x3e40_0000_0000_0000) == 995);
    assert(magnitude::significand(0x3e40_0000_0000_0000) == 0x10_0000_0000_0000);
    let (x, p, v) = (rounding::real_of(small), rounding::unit_count(), rounding::real_of(ru));
    assert(x * 134217728real == 1real) by (nonlinear_arith)
        requires
            x * p == small.value() as real,
            134217728 * small.value() == power2::pow2(1074) as int,
            p == power2::pow2(1074) as int as real,
            p > 0real,
    ;
    assert(4real * (v * v) <= rounding::unit()) by (nonlinear_arith)
        requires
            -x <= v <= x,
            x * 134217728real == 1real,
            rounding::unit() * 4503599627370496real == 1real,
    ;
}

} // verus!
