//! How far the computed images of points under a homography are from the exact ones.
use vstd::arithmetic::power2;
use vstd::prelude::*;

use crate::double;
use crate::double::Double;
use crate::homography;
use crate::linalg;
use crate::linalg::Mat3;
use crate::magnitude;
use crate::refine;
use crate::rounding;

verus! {

/// Largest size that the laws here look at: 2^60.
pub open spec fn most() -> real {
    1152921504606846976real
}

/// Added to extents, so that underflow does not matter: 2^-60.
pub open spec fn least() -> real {
    1real / most()
}

/// A finite double of moderate size.
pub open spec fn is_moderate(d: Double) -> bool {
    d.finite() && rounding::size(rounding::real_of(d)) <= most()
}

/// Exact value of a row of a homography at a point.
#[verifier::opaque]
pub open spec fn row_value(m: Mat3, row: int, x: real, y: real) -> real {
    rounding::real_of(m[3 * row]) * x + rounding::real_of(m[3 * row + 1]) * y + rounding::real_of(
        m[3 * row + 2],
    )
}

/// What the terms of a row amount to without their signs, at coordinates of this size.
#[verifier::opaque]
pub open spec fn row_extent(m: Mat3, row: int, x: real, y: real) -> real {
    rounding::size(rounding::real_of(m[3 * row])) * x + rounding::size(
        rounding::real_of(m[3 * row + 1]),
    ) * y + rounding::size(rounding::real_of(m[3 * row + 2])) + least()
}

pub open spec fn k4() -> real {
    (most() * most()) * (most() * most())
}

pub open spec fn k8() -> real {
    k4() * k4()
}

/// The powers of 2^60 against the least double and the limit of overflow.
pub proof fn lemma_powers()
    ensures
        rounding::tiny() * k8() <= 1real,
        k8() * k8() <= rounding::limit(),
        k4() >= most() * most(),
        k4() >= 1real,
        k8() >= k4(),
        least() * most() == 1real,
        least() > 0real,
{
    let k = most();
    rounding::lemma_scales();
    power2::lemma2_to64();
    power2::lemma2_to64_rest();
    power2::lemma_pow2_adds(60, 60);
    power2::lemma_pow2_adds(120, 120);
    power2::lemma_pow2_adds(240, 240);
    power2::lemma_pow2_adds(480, 480);
    power2::lemma_pow2_strictly_increases(960, 1000);
    power2::lemma_pow2_strictly_increases(480, 1074);
    let p60 = power2::pow2(60) as int as real;
    let p120 = power2::pow2(120) as int as real;
    let p240 = power2::pow2(240) as int as real;
    let p480 = power2::pow2(480) as int as real;
    let p960 = power2::pow2(960) as int as real;
    assert(p60 == k);
    assert(p120 == p60 * p60) by (nonlinear_arith)
        requires
            power2::pow2(60) * power2::pow2(60) == power2::pow2(120),
            p60 == power2::pow2(60) as int as real,
            p120 == power2::pow2(120) as int as real,
    ;
    assert(p240 == p120 * p120) by (nonlinear_arith)
        requires
            power2::pow2(120) * power2::pow2(120) == power2::pow2(240),
            p120 == power2::pow2(120) as int as real,
            p240 == power2::pow2(240) as int as real,
    ;
    assert(p480 == p240 * p240) by (nonlinear_arith)
        requires
            power2::pow2(240) * power2::pow2(240) == power2::pow2(480),
            p240 == power2::pow2(240) as int as real,
            p480 == power2::pow2(480) as int as real,
    ;
    assert(p960 == p480 * p480) by (nonlinear_arith)
        requires
            power2::pow2(480) * power2::pow2(480) == power2::pow2(960),
            p480 == power2::pow2(480) as int as real,
            p960 == power2::pow2(960) as int as real,
    ;
    assert(k4() == p240 && k8() == p480);
    let t = rounding::tiny();
    assert(t * p480 <= 1real) by (nonlinear_arith)
        requires
            t * rounding::unit_count() == 1real,
            t > 0real,
            p480 <= rounding::unit_count(),
    ;
    assert(k * k >= 1real && (k * k) * (k * k) >= k * k) by (nonlinear_arith)
        requires
            k == 1152921504606846976real,
    ;
    assert(p240 * p240 >= p240) by (nonlinear_arith)
        requires
            p240 >= 1real,
    ;
    rounding::lemma_ratio(1real, k);
    assert(least() > 0real) by (nonlinear_arith)
        requires
            least() * k == 1real,
            k > 0real,
    ;
}

/// A row at a point, in doubles: close to the exact value of the same row.
#[verifier::spinoff_prover]
#[verifier::rlimit(60)]
pub proof fn lemma_row(a: Double, b: Double, c: Double, p: Double, q: Double)
    requires
        a.finite(),
        b.finite(),
        c.finite(),
        p.finite(),
        q.finite(),
        rounding::size(rounding::real_of(a) * rounding::real_of(p)) <= k8(),
        rounding::size(rounding::real_of(b) * rounding::real_of(q)) <= k8(),
        rounding::size(rounding::real_of(c)) <= k8(),
    ensures
        ({
            let n = double::sum(double::sum(double::product(a, p), double::product(b, q)), c);
            let (x, y, z) = (
                rounding::real_of(a) * rounding::real_of(p),
                rounding::real_of(b) * rounding::real_of(q),
                rounding::real_of(c),
            );
            &&& n.finite()
            &&& rounding::within(
                rounding::real_of(n),
                x + y + z,
                4real * rounding::unit() * (rounding::size(x) + rounding::size(y)
                    + rounding::size(z)) + 3real * rounding::tiny(),
            )
        }),
{
    rounding::lemma_units_are_small();
    lemma_powers();
    let (u, t) = (rounding::unit(), rounding::tiny());
    let (x, y, z) = (
        rounding::real_of(a) * rounding::real_of(p),
        rounding::real_of(b) * rounding::real_of(q),
        rounding::real_of(c),
    );
    let (sx, sy, sz) = (rounding::size(x), rounding::size(y), rounding::size(z));
    let k = k8();
    assert(16real * k <= k * k) by (nonlinear_arith)
        requires
            k >= 16real,
    ;
    rounding::lemma_product(a, p);
    rounding::lemma_product(b, q);
    let (f, g) = (double::product(a, p), double::product(b, q));
    let (x1, y1) = (rounding::real_of(f), rounding::real_of(g));
    let (ux, uy, uz) = (u * sx, u * sy, u * sz);
    assert(0real <= ux && 1000000real * ux <= sx && 0real <= uy && 1000000real * uy <= sy && 0real
        <= uz && 1000000real * uz <= sz) by (nonlinear_arith)
        requires
            ux == u * sx,
            uy == u * sy,
            uz == u * sz,
            0real <= sx,
            0real <= sy,
            0real <= sz,
            0real < u,
            1000000real * u <= 1real,
    ;
    rounding::lemma_sum(f, g);
    let s = double::sum(f, g);
    let s1 = rounding::real_of(s);
    let w = rounding::size(x1 + y1);
    let ut = u * t;
    assert(u * w <= ux + uy + u * ux + u * uy + 2real * ut) by (nonlinear_arith)
        requires
            w <= sx + sy + ux + uy + 2real * t,
            ux == u * sx,
            uy == u * sy,
            ut == u * t,
            0real < u,
    ;
    assert(0real <= u * ux && 1000000real * (u * ux) <= ux && 0real <= u * uy && 1000000real * (u
        * uy) <= uy && 1000000real * ut <= t && 0real <= ut) by (nonlinear_arith)
        requires
            0real <= ux,
            0real <= uy,
            0real < u,
            1000000real * u <= 1real,
            ut == u * t,
            0real < t,
    ;
    rounding::lemma_sum(s, c);
    let v = rounding::size(s1 + z);
    assert(10real * (u * v) <= 11real * (ux + uy + uz) + 10real * t) by (nonlinear_arith)
        requires
            10real * v <= 11real * (sx + sy + sz) + 30real * t,
            ux == u * sx,
            uy == u * sy,
            uz == u * sz,
            0real < u,
            30real * u <= 1real,
            0real < t,
    ;
    assert(4real * u * (sx + sy + sz) == 4real * (ux + uy + uz)) by (nonlinear_arith)
        requires
            ux == u * sx,
            uy == u * sy,
            uz == u * sz,
    ;
}

/// The size of a product is the product of the sizes.
pub proof fn lemma_size_product(a: real, b: real)
    ensures
        rounding::size(a * b) == rounding::size(a) * rounding::size(b),
{
    let p = a * b;
    assert((-a) * b == -p && a * (-b) == -p && (-a) * (-b) == p) by (nonlinear_arith)
        requires
            p == a * b,
    ;
    if a < 0real {
        if b < 0real {
            assert(p >= 0real) by (nonlinear_arith)
                requires
                    p == a * b,
                    a < 0real,
                    b < 0real,
            ;
        } else {
            assert(p <= 0real) by (nonlinear_arith)
                requires
                    p == a * b,
                    a < 0real,
                    b >= 0real,
            ;
        }
    } else if b < 0real {
        assert(p <= 0real) by (nonlinear_arith)
            requires
                p == a * b,
                a >= 0real,
                b < 0real,
        ;
    } else {
        assert(p >= 0real) by (nonlinear_arith)
            requires
                p == a * b,
                a >= 0real,
                b >= 0real,
        ;
    }
}

/// A product of two numbers is no larger than that of their bounds.
pub proof fn lemma_product_bound(a: real, b: real, x: real, y: real)
    requires
        rounding::size(a) <= x,
        rounding::size(b) <= y,
    ensures
        rounding::size(a * b) <= x * y,
        0real <= x * y,
{
    lemma_size_product(a, b);
    let (p, q) = (rounding::size(a), rounding::size(b));
    assert(p * q <= x * y && 0real <= x * y) by (nonlinear_arith)
        requires
            0real <= p <= x,
            0real <= q <= y,
    ;
}

/// A positive factor can be taken off both sides.
pub proof fn lemma_cancel(a: real, b: real, w: real)
    requires
        a * w <= b * w,
        0real < w,
    ensures
        a <= b,
{
    assert(a <= b) by (nonlinear_arith)
        requires
            a * w <= b * w,
            0real < w,
    ;
}

/// A factor that is not negative can be put on both sides.
pub proof fn lemma_scale_both(a: real, b: real, w: real)
    requires
        a <= b,
        0real <= w,
    ensures
        a * w <= b * w,
{
    assert(a * w <= b * w) by (nonlinear_arith)
        requires
            a <= b,
            0real <= w,
    ;
}

/// The ratio of two rows, in reals: `a` and `b` are off their exact values by rounding.
pub proof fn lemma_ratio_of_rows(
    a: real,
    b: real,
    v: real,
    w: real,
    x: real,
    z: real,
    rho: real,
    r: real,
    u: real,
    t: real,
)
    requires
        0real < u,
        u * 4503599627370496real == 1real,
        rounding::within(a, v, 26real * (u * x)),
        rounding::within(b, w, 26real * (u * z)),
        rounding::size(v) <= x,
        rounding::size(w) <= z,
        0real < x,
        0real < z,
        68719476736real * rounding::size(w) >= z,
        rho * b == a,
        rounding::within(r, rho, u * rounding::size(rho) + t),
        0real < t,
        t * (w * w) <= u * (x * z),
    ensures
        rounding::within(r, v / w, (x * z) / (w * w) / 70368744177664real),
        rounding::size(r) <= 2real * ((x * z) / (w * w)),
        (x * z) / (w * w) > 0real,
{
    let (sw, sv, sb) = (rounding::size(w), rounding::size(v), rounding::size(b));
    let ww = w * w;
    let xz = x * z;
    lemma_size_product(w, w);
    assert(ww > 0real) by (nonlinear_arith)
        requires
            rounding::size(ww) == sw * sw,
            sw > 0real,
            ww == w * w,
            rounding::size(ww) == ww || rounding::size(ww) == -ww,
            ww >= 0real || true,
    {
        assert(w * w >= 0real);
        assert(sw * sw > 0real);
    }
    let e = xz / ww;
    rounding::lemma_ratio(xz, ww);
    lemma_product_bound(0real, 0real, x, z);
    assert(xz > 0real) by (nonlinear_arith)
        requires
            xz == x * z,
            0real < x,
            0real < z,
    ;
    assert(e > 0real) by (nonlinear_arith)
        requires
            e * ww == xz,
            xz > 0real,
            ww > 0real,
    ;
    let (uz, ux, uxz) = (u * z, u * x, u * xz);
    lemma_scale_both(z, 68719476736real * sw, u);
    assert(u * z == z * u && (68719476736real * sw) * u * 65536real == sw) by (nonlinear_arith)
        requires
            u * 4503599627370496real == 1real,
    ;
    assert(65536real * uz <= sw);
    assert(1000real * sb >= 999real * sw);
    let q = v / w;
    rounding::lemma_ratio(v, w);
    let off = rho - q;
    let (da, db) = (a - v, b - w);
    let bw = b * w;
    assert(off * bw == da * w - v * db) by (nonlinear_arith)
        requires
            off == rho - q,
            bw == b * w,
            rho * b == a,
            q * w == v,
            da == a - v,
            db == b - w,
    ;
    lemma_product_bound(da, w, 26real * ux, z);
    lemma_product_bound(v, db, x, 26real * uz);
    assert(26real * ux * z == 26real * uxz && x * (26real * uz) == 26real * uxz)
        by (nonlinear_arith)
        requires
            ux == u * x,
            uz == u * z,
            uxz == u * xz,
            xz == x * z,
    ;
    lemma_size_product(b, w);
    let sbw = rounding::size(bw);
    lemma_scale_both(999real * sw, 1000real * sb, sw);
    assert(999real * sw * sw == 999real * ww && 1000real * sb * sw == 1000real * sbw)
        by (nonlinear_arith)
        requires
            ww == sw * sw,
            sbw == sb * sw,
    ;
    lemma_size_product(off, bw);
    let so = rounding::size(off);
    assert(so * sbw <= 52real * uxz);
    let ue = u * e;
    assert(ue * ww == uxz) by (nonlinear_arith)
        requires
            ue == u * e,
            e * ww == xz,
            uxz == u * xz,
    ;
    lemma_scale_both(999real * ww, 1000real * sbw, so);
    assert(999real * ww * so == (999real * so) * ww && 1000real * sbw * so == 1000real * (so * sbw)
        && (52000real * ue) * ww == 52000real * (ue * ww)) by (nonlinear_arith);
    lemma_cancel(999real * so, 52000real * ue, ww);
    lemma_cancel(t, ue, ww);
    let sq = rounding::size(q);
    lemma_size_product(q, w);
    assert(sq * ww == sv * sw) by (nonlinear_arith)
        requires
            sq * sw == sv,
            ww == sw * sw,
    ;
    lemma_product_bound(v, w, x, z);
    lemma_size_product(v, w);
    lemma_cancel(sq, e, ww);
    lemma_scale_both(0real, e, u);
    assert(e * u == ue && 4503599627370496real * ue == e && 0real * u == 0real) by (nonlinear_arith)
        requires
            ue == u * e,
            u * 4503599627370496real == 1real,
    ;
    lemma_scale_both(100real * rounding::size(rho), 101real * e, u);
    assert(100real * rounding::size(rho) * u == 100real * (u * rounding::size(rho)) && 101real * e
        * u == 101real * ue) by (nonlinear_arith)
        requires
            ue == u * e,
    ;
    assert(64real * ue == e / 70368744177664real) by (nonlinear_arith)
        requires
            4503599627370496real * ue == e,
    ;
}

/// How the smallest of the scales compare.
pub proof fn lemma_floor(lam: real, x: real)
    requires
        lam * k4() >= 1real,
        0real < lam,
        x >= least(),
    ensures
        0real < lam * x,
        1267650600228229401496703205376real * rounding::tiny() <= rounding::unit() * (lam * x),
        1267650600228229401496703205376real * rounding::tiny() <= lam * x,
{
    lemma_powers();
    rounding::lemma_units_are_small();
    let (k, u, t, l) = (most(), rounding::unit(), rounding::tiny(), least());
    let (a, b) = (k4(), k8());
    let (k2, y) = (k * k, lam * x);
    let (k3, c) = (k * k2, a * k);
    assert(k2 == 1329227995784915872903807060280344576real) by (nonlinear_arith)
        requires
            k2 == k * k,
            k == 1152921504606846976real,
    ;
    assert(k3 == 1532495540865888858358347027150309183618739122183602176real);
    assert(a == k * k3) by (nonlinear_arith)
        requires
            a == (k * k) * (k * k),
            k2 == k * k,
            k3 == k * k2,
    ;
    assert(b == c * k3) by (nonlinear_arith)
        requires
            b == a * a,
            a == k * k3,
            c == a * k,
    ;
    assert(c > 0real);
    lemma_scale_both(l, x, lam);
    assert(x * lam == y) by (nonlinear_arith)
        requires
            y == lam * x,
    ;
    lemma_scale_both(l * lam, y, c);
    assert((l * lam) * c == lam * a) by (nonlinear_arith)
        requires
            l * k == 1real,
            c == a * k,
    ;
    assert(y * c >= 1real);
    assert((t * k3) * c == t * b) by (nonlinear_arith)
        requires
            b == c * k3,
    ;
    lemma_cancel(t * k3, y, c);
    assert(t * k3 == 1532495540865888858358347027150309183618739122183602176real * t)
        by (nonlinear_arith)
        requires
            k3 == 1532495540865888858358347027150309183618739122183602176real,
    ;
    lemma_scale_both(1532495540865888858358347027150309183618739122183602176real * t, y, u);
    assert((1532495540865888858358347027150309183618739122183602176real * t) * u
        == 1532495540865888858358347027150309183618739122183602176real * (t * u)) by (nonlinear_arith);
    assert(4503599627370496real * (t * u) == t) by (nonlinear_arith)
        requires
            u * 4503599627370496real == 1real,
    ;
    assert(y * u == u * y) by (nonlinear_arith);
}

/// A row of `m` at a double point, next to `lam` times an exact value `v` whose terms
/// amount to `x`.
pub open spec fn is_scaled_row(
    m: Mat3,
    row: int,
    p: Double,
    q: Double,
    lam: real,
    v: real,
    x: real,
) -> bool {
    let (a, b, c) = (
        rounding::real_of(m[3 * row]) * rounding::real_of(p),
        rounding::real_of(m[3 * row + 1]) * rounding::real_of(q),
        rounding::real_of(m[3 * row + 2]),
    );
    &&& rounding::size(a) + rounding::size(b) + rounding::size(c) <= 2real * (rounding::size(lam)
        * x)
    &&& rounding::within(a + b + c, lam * v, 16real * (rounding::unit() * (rounding::size(lam)
        * x)))
}

/// The row computed.
pub open spec fn row_of(m: Mat3, row: int, p: Double, q: Double) -> Double {
    double::sum(
        double::sum(double::product(m[3 * row], p), double::product(m[3 * row + 1], q)),
        m[3 * row + 2],
    )
}

/// Dividing a number that is close to a multiple of `v` gives one close to `v`.
pub proof fn lemma_unscale(n: real, lam: real, v: real, e: real) -> (a: real)
    requires
        lam != 0real,
        rounding::within(n, lam * v, rounding::size(lam) * e),
    ensures
        a * lam == n,
        rounding::within(a, v, e),
{
    let a = n / lam;
    rounding::lemma_ratio(n, lam);
    let d = a - v;
    assert(d * lam == n - lam * v) by (nonlinear_arith)
        requires
            d == a - v,
            a * lam == n,
    ;
    lemma_size_product(d, lam);
    let (sd, sl) = (rounding::size(d), rounding::size(lam));
    assert(sl * e == e * sl) by (nonlinear_arith);
    lemma_cancel(sd, e, sl);
    a
}

/// A computed row, taken back to the scale of the exact one.
pub proof fn lemma_scaled_row(
    m: Mat3,
    row: int,
    p: Double,
    q: Double,
    lam: real,
    v: real,
    x: real,
) -> (a: real)
    requires
        0 <= row < 3,
        m[3 * row].finite(),
        m[3 * row + 1].finite(),
        m[3 * row + 2].finite(),
        p.finite(),
        q.finite(),
        lam != 0real,
        rounding::size(lam) * k4() >= 1real,
        x >= least(),
        2real * (rounding::size(lam) * x) <= k8(),
        is_scaled_row(m, row, p, q, lam, v, x),
    ensures
        row_of(m, row, p, q).finite(),
        a * lam == rounding::real_of(row_of(m, row, p, q)),
        rounding::within(a, v, 26real * (rounding::unit() * x)),
{
    lemma_floor(rounding::size(lam), x);
    rounding::lemma_units_are_small();
    lemma_row(m[3 * row], m[3 * row + 1], m[3 * row + 2], p, q);
    let (x1, y1, z1) = (
        rounding::real_of(m[3 * row]) * rounding::real_of(p),
        rounding::real_of(m[3 * row + 1]) * rounding::real_of(q),
        rounding::real_of(m[3 * row + 2]),
    );
    let terms = rounding::size(x1) + rounding::size(y1) + rounding::size(z1);
    let (u, l) = (rounding::unit(), rounding::size(lam));
    let lx = l * x;
    let ulx = u * lx;
    lemma_scale_both(terms, 2real * lx, u);
    assert(terms * u == u * terms && (2real * lx) * u == 2real * ulx && 4real * u * terms == 4real
        * (u * terms)) by (nonlinear_arith)
        requires
            ulx == u * lx,
    ;
    let n = rounding::real_of(row_of(m, row, p, q));
    let e = 26real * (u * x);
    assert(l * e == 26real * ulx) by (nonlinear_arith)
        requires
            e == 26real * (u * x),
            ulx == u * lx,
            lx == l * x,
    ;
    lemma_unscale(n, lam, v, e)
}

/// The largest entry of a matrix of finite doubles.
pub proof fn lemma_scale(m: Mat3, bound: real, n: int)
    requires
        0 <= n <= 9,
        forall|i: int| 0 <= i < 9 ==> (#[trigger] m[i]).finite() && rounding::size(
            rounding::real_of(m[i]),
        ) <= bound,
        0real <= bound,
    ensures
        linalg::scale_upto(m, n).finite(),
        0real <= rounding::real_of(linalg::scale_upto(m, n)) <= bound,
    decreases n,
{
    if n <= 0 {
        rounding::lemma_constants();
    } else {
        lemma_scale(m, bound, n - 1);
        assert(m[n - 1].finite());
        rounding::lemma_absolute(m[n - 1]);
    }
}

/// The constants that weights are compared with.
pub proof fn lemma_thresholds()
    ensures
        ({
            let c = Double { bits: homography::AT_INFINITY };
            let l = Double { bits: homography::LEAST_SCALE };
            &&& c.finite() && l.finite()
            &&& 0real <= rounding::real_of(c)
            &&& 549755813888real * rounding::real_of(c) <= 1real
            &&& 0real <= rounding::real_of(l)
            &&& rounding::real_of(l) <= 1208925819614629174706176real * rounding::tiny()
        }),
{
    let c = Double { bits: homography::AT_INFINITY };
    let l = Double { bits: homography::LEAST_SCALE };
    rounding::lemma_parts(c);
    rounding::lemma_parts(l);
    rounding::lemma_scales();
    power2::lemma2_to64();
    power2::lemma2_to64_rest();
    power2::lemma_pow2_adds(53, 982);
    power2::lemma_pow2_adds(39, 1035);
    power2::lemma_pow2_pos(982);
    assert(magnitude::exponent(homography::AT_INFINITY as int) == 982);
    assert(magnitude::exponent(homography::LEAST_SCALE as int) == 25);
    let (sc, sl) = (
        magnitude::significand(homography::AT_INFINITY as int),
        magnitude::significand(homography::LEAST_SCALE as int),
    );
    assert(0 <= sc < 0x20_0000_0000_0000 && 0 <= sl < 0x20_0000_0000_0000);
    let (vc, vl) = (c.value(), l.value());
    assert(549755813888 * vc <= power2::pow2(1074)) by (nonlinear_arith)
        requires
            vc == sc * power2::pow2(982),
            sc <= 0x20_0000_0000_0000,
            power2::pow2(982) > 0,
            0x20_0000_0000_0000 * power2::pow2(982) == power2::pow2(1035),
            549755813888 * power2::pow2(1035) == power2::pow2(1074),
    ;
    let (x, y, p, t) = (
        rounding::real_of(c),
        rounding::real_of(l),
        rounding::unit_count(),
        rounding::tiny(),
    );
    let (rc, rl) = (vc as real, vl as real);
    assert(549755813888real * x <= 1real && x >= 0real) by (nonlinear_arith)
        requires
            x * p == rc,
            rc >= 0real,
            549755813888real * rc <= p,
            p > 0real,
    ;
    assert(vl == sl * 33554432);
    assert(0 <= vl && vl <= 302231454903657293676544int) by (nonlinear_arith)
        requires
            vl == sl * 33554432,
            0 <= sl,
            sl < 0x20_0000_0000_0000,
    ;
    assert(rl <= 302231454903657293676544real);
    assert(y == rl * t) by (nonlinear_arith)
        requires
            y * p == rl,
            t * p == 1real,
    ;
    lemma_scale_both(rl, 1208925819614629174706176real, t);
    assert(y >= 0real) by (nonlinear_arith)
        requires
            y == rl * t,
            rl >= 0real,
            t > 0real,
    ;
}

/// What a weight is compared with is small next to the entries.
pub proof fn lemma_threshold(m: Mat3, bound: real)
    requires
        forall|i: int| 0 <= i < 9 ==> (#[trigger] m[i]).finite() && rounding::size(
            rounding::real_of(m[i]),
        ) <= bound,
        0real <= bound <= k8(),
        1267650600228229401496703205376real * rounding::tiny() <= bound,
    ensures
        ({
            let t = double::product(
                Double { bits: homography::AT_INFINITY },
                double::larger(linalg::scale_of(m), Double { bits: homography::LEAST_SCALE }),
            );
            &&& t.finite()
            &&& 200000000000real * rounding::real_of(t) <= bound
        }),
{
    lemma_thresholds();
    lemma_scale(m, bound, 9);
    lemma_powers();
    rounding::lemma_units_are_small();
    let c = Double { bits: homography::AT_INFINITY };
    let d = double::larger(linalg::scale_of(m), Double { bits: homography::LEAST_SCALE });
    let (x, y) = (rounding::real_of(c), rounding::real_of(d));
    let (u, t) = (rounding::unit(), rounding::tiny());
    assert(d.finite() && 0real <= y <= bound);
    let xy = x * y;
    lemma_scale_both(549755813888real * x, 1real, y);
    assert((549755813888real * x) * y == 549755813888real * xy && 1real * y == y)
        by (nonlinear_arith)
        requires
            xy == x * y,
    ;
    assert(0real <= xy) by (nonlinear_arith)
        requires
            xy == x * y,
            0real <= x,
            0real <= y,
    ;
    let k = k8();
    assert(k <= k * k) by (nonlinear_arith)
        requires
            k >= 1real,
    ;
    rounding::lemma_product(c, d);
    assert(u * xy <= xy) by (nonlinear_arith)
        requires
            0real <= xy,
            u <= 1real,
    ;
}

/// The image of a point under a matrix whose rows are close to multiples of exact ones.
pub proof fn lemma_image(
    m: Mat3,
    p: Double,
    q: Double,
    lam: real,
    v: (real, real, real),
    x: (real, real, real),
    s: real,
) -> (i: (Double, Double))
    requires
        forall|i: int| 0 <= i < 9 ==> (#[trigger] m[i]).finite() && rounding::size(
            rounding::real_of(m[i]),
        ) <= 2real * (rounding::size(lam) * s),
        p.finite(),
        q.finite(),
        lam != 0real,
        rounding::size(lam) * k4() >= 1real,
        least() <= x.0 <= s,
        least() <= x.1 <= s,
        least() <= x.2 <= s,
        s <= k4(),
        2real * (rounding::size(lam) * s) <= k8(),
        rounding::size(v.0) <= x.0,
        rounding::size(v.1) <= x.1,
        rounding::size(v.2) <= x.2,
        68719476736real * rounding::size(v.2) >= s,
        is_scaled_row(m, 0, p, q, lam, v.0, x.0),
        is_scaled_row(m, 1, p, q, lam, v.1, x.1),
        is_scaled_row(m, 2, p, q, lam, v.2, x.2),
    ensures
        homography::image_of(m, p, q) == Some(i),
        i.0.finite(),
        i.1.finite(),
        rounding::within(
            rounding::real_of(i.0),
            v.0 / v.2,
            (x.0 * x.2) / (v.2 * v.2) / 70368744177664real,
        ),
        rounding::within(
            rounding::real_of(i.1),
            v.1 / v.2,
            (x.1 * x.2) / (v.2 * v.2) / 70368744177664real,
        ),
{
    let l = rounding::size(lam);
    lemma_scale_both(x.0, s, l);
    lemma_scale_both(x.1, s, l);
    lemma_scale_both(x.2, s, l);
    assert(x.0 * l == l * x.0 && x.1 * l == l * x.1 && x.2 * l == l * x.2 && s * l == l * s)
        by (nonlinear_arith);
    let a0 = lemma_scaled_row(m, 0, p, q, lam, v.0, x.0);
    let a1 = lemma_scaled_row(m, 1, p, q, lam, v.1, x.1);
    let a2 = lemma_scaled_row(m, 2, p, q, lam, v.2, x.2);
    let (n0, n1, n2) = (row_of(m, 0, p, q), row_of(m, 1, p, q), row_of(m, 2, p, q));
    assert(homography::weight(m, p, q) == n2);
    lemma_floor(l, s);
    rounding::lemma_units_are_small();
    let u = rounding::unit();
    // The weight is far from zero.
    lemma_scale_both(x.2, 68719476736real * rounding::size(v.2), u);
    assert(x.2 * u == u * x.2 && (68719476736real * rounding::size(v.2)) * u * 65536real
        == rounding::size(v.2)) by (nonlinear_arith)
        requires
            u * 4503599627370496real == 1real,
    ;
    assert(1000real * rounding::size(a2) >= 999real * rounding::size(v.2));
    lemma_size_product(a2, lam);
    lemma_scale_both(s, 68800000000real * rounding::size(a2), l);
    let w2 = rounding::size(rounding::real_of(n2));
    assert((68800000000real * rounding::size(a2)) * l == 68800000000real * w2) by (nonlinear_arith)
        requires
            w2 == rounding::size(a2) * l,
    ;
    let bound = 2real * (l * s);
    lemma_threshold(m, bound);
    let t = double::product(
        Double { bits: homography::AT_INFINITY },
        double::larger(linalg::scale_of(m), Double { bits: homography::LEAST_SCALE }),
    );
    rounding::lemma_absolute(n2);
    rounding::lemma_order(double::absolute(n2), t);
    assert(!homography::vanishes(m, p, q));
    let i = (double::quotient(n0, n2), double::quotient(n1, n2));
    assert(homography::image_of(m, p, q) == Some(i));
    lemma_quotient_of_rows(n0, n2, lam, a0, a2, v.0, v.2, x.0, x.2);
    lemma_quotient_of_rows(n1, n2, lam, a1, a2, v.1, v.2, x.1, x.2);
    i
}

/// One coordinate of an image.
pub proof fn lemma_quotient_of_rows(
    n: Double,
    d: Double,
    lam: real,
    a: real,
    b: real,
    v: real,
    w: real,
    x: real,
    z: real,
)
    requires
        n.finite(),
        d.finite(),
        lam != 0real,
        a * lam == rounding::real_of(n),
        b * lam == rounding::real_of(d),
        least() <= x <= k4(),
        least() <= z <= k4(),
        rounding::size(v) <= x,
        rounding::size(w) <= z,
        68719476736real * rounding::size(w) >= z,
        1000real * rounding::size(b) >= 999real * rounding::size(w),
        rounding::within(a, v, 26real * (rounding::unit() * x)),
        rounding::within(b, w, 26real * (rounding::unit() * z)),
    ensures
        double::quotient(n, d).finite(),
        rounding::within(
            rounding::real_of(double::quotient(n, d)),
            v / w,
            (x * z) / (w * w) / 70368744177664real,
        ),
{
    lemma_powers();
    rounding::lemma_units_are_small();
    let (u, t, k, l) = (rounding::unit(), rounding::tiny(), most(), least());
    let (rn, rd) = (rounding::real_of(n), rounding::real_of(d));
    let (sb, sa) = (rounding::size(b), rounding::size(a));
    assert(rd != 0real) by (nonlinear_arith)
        requires
            b * lam == rd,
            b != 0real,
            lam != 0real,
    ;
    let rho = rn / rd;
    rounding::lemma_ratio(rn, rd);
    let gap = rho * b - a;
    assert(gap * lam == 0real) by (nonlinear_arith)
        requires
            gap == rho * b - a,
            rho * rd == rn,
            a * lam == rn,
            b * lam == rd,
    ;
    assert(gap == 0real) by (nonlinear_arith)
        requires
            gap * lam == 0real,
            lam != 0real,
    ;
    // No overflow.
    let (k4, k8) = (k4(), k8());
    let ux = u * x;
    assert(4503599627370496real * ux == x) by (nonlinear_arith)
        requires
            ux == u * x,
            u * 4503599627370496real == 1real,
    ;
    lemma_size_product(rho, b);
    let sr = rounding::size(rho);
    assert(sr * sb == sa && sa <= 2real * k4);
    let c = 100000000000real * k;
    lemma_scale_both(l, 68800000000real * sb, k);
    assert(sb * c >= 1real) by (nonlinear_arith)
        requires
            l * k == 1real,
            l * k <= (68800000000real * sb) * k,
            c == 100000000000real * k,
            sb >= 0real,
            k > 0real,
    {
        assert((68800000000real * sb) * k == 68800000000real * (sb * k));
        assert(sb * c == 100000000000real * (sb * k));
        assert(sb * k >= 0real);
    }
    lemma_scale_both(1real, sb * c, sr);
    assert(1real * sr == sr && (sb * c) * sr == sa * c) by (nonlinear_arith)
        requires
            sr * sb == sa,
    ;
    lemma_scale_both(sa, 2real * k4, c);
    let k2 = k * k;
    assert(k2 == 1329227995784915872903807060280344576real) by (nonlinear_arith)
        requires
            k2 == k * k,
            k == 1152921504606846976real,
    ;
    assert(2real * c <= k2);
    lemma_scale_both(2real * c, k4, k4);
    assert((2real * k4) * c == (2real * c) * k4 && k4 * k4 == k8) by (nonlinear_arith)
        requires
            k8 == k4 * k4,
    ;
    assert(k8 <= k8 * k8) by (nonlinear_arith)
        requires
            k8 >= 1real,
    ;
    rounding::lemma_quotient(n, d);
    // The least double does not matter.
    let ul = u * l;
    assert(ul * k4 >= 1real) by (nonlinear_arith)
        requires
            ul == u * l,
            k4 >= k2,
            l * k == 1real,
            k2 == k * k,
            u * 4503599627370496real == 1real,
            k == 1152921504606846976real,
            l > 0real,
            u > 0real,
    {
        assert(ul > 0real);
        assert(ul * k2 == u * k);
        assert(u * k >= 1real);
        assert(ul * k4 >= ul * k2);
    }
    assert((t * k4) * k4 == t * k8) by (nonlinear_arith)
        requires
            k8 == k4 * k4,
    ;
    lemma_cancel(t * k4, ul, k4);
    let ww = w * w;
    lemma_product_bound(w, w, z, z);
    let zz = z * z;
    let tz = t * z;
    lemma_scale_both(ww, zz, t);
    lemma_scale_both(z, k4, t);
    lemma_scale_both(tz, ul, z);
    assert(u * z >= 0real) by (nonlinear_arith)
        requires
            u > 0real,
            z > 0real,
    ;
    lemma_scale_both(l, x, u * z);
    assert(t * ww <= u * (x * z)) by {
        assert(ww * t == t * ww && zz * t == tz * z && z * t == tz && k4 * t == t * k4 && ul * z
            == l * (u * z) && x * (u * z) == u * (x * z)) by (nonlinear_arith)
            requires
                tz == t * z,
                zz == z * z,
                ul == u * l,
        ;
    }
    lemma_ratio_of_rows(
        a,
        b,
        v,
        w,
        x,
        z,
        rho,
        rounding::real_of(double::quotient(n, d)),
        u,
        t,
    );
}

/// What all rows amount to at coordinates of this size, and the entries with them.
pub open spec fn point_extent(m: Mat3, ax: real, ay: real) -> real {
    row_extent(m, 0, 1real + ax, 1real + ay) + row_extent(m, 1, 1real + ax, 1real + ay)
        + row_extent(m, 2, 1real + ax, 1real + ay)
}

/// The weight at a point is not lost to cancellation: at least 2^-36 of what the rows
/// amount to at coordinates of this size.
pub open spec fn is_clear(m: Mat3, x: real, y: real, ax: real, ay: real) -> bool {
    68719476736real * rounding::size(row_value(m, 2, x, y)) >= point_extent(m, ax, ay)
}

/// How far rounding can put a coordinate off the exact image of a point: 2^-46 of what
/// the terms of the two rows amount to, over the square of the weight.
pub open spec fn blur(m: Mat3, row: int, x: real, y: real, ax: real, ay: real) -> real {
    (row_extent(m, row, ax, ay) * row_extent(m, 2, ax, ay)) / (row_value(m, 2, x, y) * row_value(
        m,
        2,
        x,
        y,
    )) / 70368744177664real
}

/// A matrix of moderate doubles.
pub open spec fn is_moderate_matrix(m: Mat3) -> bool {
    forall|i: int| 0 <= i < 9 ==> is_moderate(#[trigger] m[i])
}

/// A row of `m` at a double point, next to an exact value `v` whose terms amount to `x`.
pub open spec fn is_near_row(m: Mat3, row: int, p: Double, q: Double, v: real, x: real) -> bool {
    let (a, b, c) = (
        rounding::real_of(m[3 * row]) * rounding::real_of(p),
        rounding::real_of(m[3 * row + 1]) * rounding::real_of(q),
        rounding::real_of(m[3 * row + 2]),
    );
    &&& 2real * (rounding::size(a) + rounding::size(b) + rounding::size(c)) <= 3real * x
    &&& rounding::within(a + b + c, v, 8real * (rounding::unit() * x))
}

/// The terms of a row at a point of no more than this size.
pub proof fn lemma_terms(m: Mat3, row: int, x: real, y: real, ax: real, ay: real)
    requires
        0 <= row < 3,
        rounding::size(x) <= ax,
        rounding::size(y) <= ay,
    ensures
        rounding::size(rounding::real_of(m[3 * row]) * x) + rounding::size(
            rounding::real_of(m[3 * row + 1]) * y,
        ) + rounding::size(rounding::real_of(m[3 * row + 2])) + least() <= row_extent(
            m,
            row,
            ax,
            ay,
        ),
        rounding::size(row_value(m, row, x, y)) <= row_extent(m, row, ax, ay),
        least() <= row_extent(m, row, ax, ay),
{
    reveal(row_value);
    reveal(row_extent);
    lemma_powers();
    let (a, b) = (rounding::real_of(m[3 * row]), rounding::real_of(m[3 * row + 1]));
    lemma_product_bound(a, x, rounding::size(a), ax);
    lemma_product_bound(b, y, rounding::size(b), ay);
}

/// What rows amount to, next to all of them.
pub proof fn lemma_extents(m: Mat3, ax: real, ay: real)
    requires
        is_moderate_matrix(m),
        0real <= ax <= 4real * most(),
        0real <= ay <= 4real * most(),
    ensures
        least() <= row_extent(m, 0, ax, ay) <= point_extent(m, ax, ay),
        least() <= row_extent(m, 1, ax, ay) <= point_extent(m, ax, ay),
        least() <= row_extent(m, 2, ax, ay) <= point_extent(m, ax, ay),
        forall|i: int|
            0 <= i < 9 ==> rounding::size(rounding::real_of(#[trigger] m[i])) <= point_extent(
                m,
                ax,
                ay,
            ),
        point_extent(m, ax, ay) <= 66461399789245793645190353014017228800real,
{
    lemma_row_extent(m, 0, ax, ay);
    lemma_row_extent(m, 1, ax, ay);
    lemma_row_extent(m, 2, ax, ay);
    let s = point_extent(m, ax, ay);
    assert forall|i: int| 0 <= i < 9 implies rounding::size(rounding::real_of(#[trigger] m[i]))
        <= s by {
        let row = i / 3;
        assert(i == 3 * row || i == 3 * row + 1 || i == 3 * row + 2);
        assert(row == 0 || row == 1 || row == 2);
    }
}

pub proof fn lemma_row_extent(m: Mat3, row: int, ax: real, ay: real)
    requires
        0 <= row < 3,
        is_moderate_matrix(m),
        0real <= ax <= 4real * most(),
        0real <= ay <= 4real * most(),
    ensures
        0real < least() <= row_extent(m, row, ax, ay) <= row_extent(m, row, 1real + ax, 1real + ay),
        rounding::size(rounding::real_of(m[3 * row])) <= row_extent(m, row, 1real + ax, 1real + ay),
        rounding::size(rounding::real_of(m[3 * row + 1])) <= row_extent(
            m,
            row,
            1real + ax,
            1real + ay,
        ),
        rounding::size(rounding::real_of(m[3 * row + 2])) <= row_extent(
            m,
            row,
            1real + ax,
            1real + ay,
        ),
        row_extent(m, row, 1real + ax, 1real + ay) <= 13292279957849158729038070602803445760real,
{
    reveal(row_extent);
    lemma_powers();
    assert(is_moderate(m[3 * row]) && is_moderate(m[3 * row + 1]) && is_moderate(m[3 * row + 2]));
    let (a, b, k, l) = (
        rounding::size(rounding::real_of(m[3 * row])),
        rounding::size(rounding::real_of(m[3 * row + 1])),
        most(),
        least(),
    );
    assert(1real * k == k) by (nonlinear_arith);
    lemma_cancel(l, 1real, k);
    lemma_product_term(a, ax, k);
    lemma_product_term(b, ay, k);
}

pub proof fn lemma_product_term(a: real, x: real, k: real)
    requires
        0real <= a <= k,
        0real <= x <= 4real * k,
        k == 1152921504606846976real,
    ensures
        0real <= a * x,
        a * (1real + x) == a + a * x,
        a * x <= 5316911983139663491615228241121378304real,
{
    assert(a * (1real + x) == a + a * x) by (nonlinear_arith);
    assert(0real <= a * x) by (nonlinear_arith)
        requires
            0real <= a,
            0real <= x,
    ;
    lemma_product_bound(a, x, k, 4real * k);
    assert(k * (4real * k) == 5316911983139663491615228241121378304real) by (nonlinear_arith)
        requires
            k == 1152921504606846976real,
    ;
}

/// The image of a point under a matrix whose rows are close to exact ones.
pub proof fn lemma_near_image(
    m: Mat3,
    p: Double,
    q: Double,
    v: (real, real, real),
    x: (real, real, real),
    s: real,
) -> (i: (Double, Double))
    requires
        forall|i: int| 0 <= i < 9 ==> (#[trigger] m[i]).finite() && rounding::size(
            rounding::real_of(m[i]),
        ) <= 2real * s,
        p.finite(),
        q.finite(),
        is_reference(v, x, s),
        is_near_row(m, 0, p, q, v.0, x.0),
        is_near_row(m, 1, p, q, v.1, x.1),
        is_near_row(m, 2, p, q, v.2, x.2),
    ensures
        homography::image_of(m, p, q) == Some(i),
        is_image(i, v, x),
{
    lemma_powers();
    lemma_floor_of_powers();
    rounding::lemma_units_are_small();
    lemma_near_is_scaled(m, 0, p, q, v.0, x.0);
    lemma_near_is_scaled(m, 1, p, q, v.1, x.1);
    lemma_near_is_scaled(m, 2, p, q, v.2, x.2);
    let k = k4();
    assert(1real * k == k && 1real * s == s) by (nonlinear_arith);
    lemma_image(m, p, q, 1real, v, x, s)
}

/// A row close to an exact one is so at the scale of 1.
pub proof fn lemma_near_is_scaled(m: Mat3, row: int, p: Double, q: Double, v: real, x: real)
    requires
        is_near_row(m, row, p, q, v, x),
        0real < x,
    ensures
        is_scaled_row(m, row, p, q, 1real, v, x),
{
    rounding::lemma_units_are_small();
    let u = rounding::unit();
    assert(1real * x == x && 1real * v == v) by (nonlinear_arith);
    assert(u * x > 0real) by (nonlinear_arith)
        requires
            u > 0real,
            x > 0real,
    ;
}

/// Exact rows that images are held against: the weight is not lost to cancellation.
pub open spec fn is_reference(v: (real, real, real), x: (real, real, real), s: real) -> bool {
    &&& least() <= x.0 <= s
    &&& least() <= x.1 <= s
    &&& least() <= x.2 <= s
    &&& s <= 66461399789245793645190353014017228800real
    &&& rounding::size(v.0) <= x.0
    &&& rounding::size(v.1) <= x.1
    &&& rounding::size(v.2) <= x.2
    &&& 68719476736real * rounding::size(v.2) >= s
}

/// A finite image, close to the exact one.
pub open spec fn is_image(i: (Double, Double), v: (real, real, real), x: (real, real, real)) -> bool {
    &&& i.0.finite() && i.1.finite()
    &&& rounding::within(
        rounding::real_of(i.0),
        v.0 / v.2,
        (x.0 * x.2) / (v.2 * v.2) / 70368744177664real,
    )
    &&& rounding::within(
        rounding::real_of(i.1),
        v.1 / v.2,
        (x.1 * x.2) / (v.2 * v.2) / 70368744177664real,
    )
}

/// An entry divided by a reference entry.
pub proof fn lemma_divided(n: Double, d: Double, lam: real)
    requires
        n.finite(),
        d.finite(),
        rounding::real_of(d) != 0real,
        lam * rounding::real_of(d) == 1real,
        rounding::size(lam) * rounding::size(rounding::real_of(n)) <= rounding::limit(),
    ensures
        double::quotient(n, d).finite(),
        rounding::within(
            rounding::real_of(double::quotient(n, d)),
            lam * rounding::real_of(n),
            rounding::unit() * (rounding::size(lam) * rounding::size(rounding::real_of(n)))
                + rounding::tiny(),
        ),
{
    let (x, y) = (rounding::real_of(n), rounding::real_of(d));
    let r = x / y;
    rounding::lemma_ratio(x, y);
    assert(r == lam * x) by (nonlinear_arith)
        requires
            r * y == x,
            lam * y == 1real,
    {
        assert(lam * (r * y) == r * (lam * y));
    }
    lemma_size_product(lam, x);
    rounding::lemma_quotient(n, d);
}

/// A term whose factor is a divided entry.
pub proof fn lemma_divided_term(c: real, m: real, p: real, lam: real)
    requires
        rounding::within(
            c,
            lam * m,
            rounding::unit() * (rounding::size(lam) * rounding::size(m)) + rounding::tiny(),
        ),
        rounding::size(p) <= 8real * most(),
    ensures
        rounding::within(
            c * p,
            lam * (m * p),
            rounding::unit() * (rounding::size(lam) * rounding::size(m * p))
                + 9223372036854775808real * rounding::tiny(),
        ),
{
    rounding::lemma_units_are_small();
    let (u, t, l) = (rounding::unit(), rounding::tiny(), rounding::size(lam));
    let (sm, sp) = (rounding::size(m), rounding::size(p));
    lemma_size_product(m, p);
    let e = c - lam * m;
    let bound = u * (l * sm) + t;
    lemma_product_bound(e, p, bound, sp);
    lemma_scale_both(sp, 9223372036854775808real, t);
    assert(e * p == c * p - lam * (m * p)) by (nonlinear_arith)
        requires
            e == c - lam * m,
    ;
    let lsm = l * sm;
    assert(bound * sp == u * (lsm * sp) + sp * t) by (nonlinear_arith)
        requires
            bound == u * lsm + t,
    ;
    assert(lsm * sp == l * (sm * sp)) by (nonlinear_arith)
        requires
            lsm == l * sm,
    ;
    assert(9223372036854775808real * t == t * 9223372036854775808real) by (nonlinear_arith);
}

/// A row close to an exact one stays so, to scale, where the last entry of the matrix is
/// made 1.
pub proof fn lemma_start_row(
    m: Mat3,
    row: int,
    p: Double,
    q: Double,
    v: real,
    x: real,
    lam: real,
)
    requires
        0 <= row < 3,
        is_near_row(m, row, p, q, v, x),
        is_start(m, lam),
        rounding::size(rounding::real_of(p)) <= 8real * most(),
        rounding::size(rounding::real_of(q)) <= 8real * most(),
        lam != 0real,
        rounding::size(lam) * k4() >= 1real,
        x >= least(),
    ensures
        is_scaled_row(refine::in_chart(refine::chart_parameters(m)), row, p, q, lam, v, x),
{
    let n = refine::in_chart(refine::chart_parameters(m));
    let (i, j, k) = (3 * row, 3 * row + 1, 3 * row + 2);
    assert(is_divided(m, lam, i) && is_divided(m, lam, j) && is_divided(m, lam, k));
    lemma_start_terms(
        (rounding::real_of(m[i]), rounding::real_of(m[j]), rounding::real_of(m[k])),
        (rounding::real_of(n[i]), rounding::real_of(n[j]), rounding::real_of(n[k])),
        rounding::real_of(p),
        rounding::real_of(q),
        v,
        x,
        lam,
    );
}

/// `c` is `lam` times `m`, but for the rounding of a quotient.
pub open spec fn is_quotient_of(c: real, m: real, lam: real) -> bool {
    rounding::within(
        c,
        lam * m,
        rounding::unit() * (rounding::size(lam) * rounding::size(m)) + rounding::tiny(),
    )
}

/// The terms of a row whose entries are divided.
pub proof fn lemma_start_terms(
    m: (real, real, real),
    n: (real, real, real),
    rp: real,
    rq: real,
    v: real,
    x: real,
    lam: real,
)
    requires
        2real * (rounding::size(m.0 * rp) + rounding::size(m.1 * rq) + rounding::size(m.2))
            <= 3real * x,
        rounding::within(m.0 * rp + m.1 * rq + m.2, v, 8real * (rounding::unit() * x)),
        is_quotient_of(n.0, m.0, lam),
        is_quotient_of(n.1, m.1, lam),
        is_quotient_of(n.2, m.2, lam),
        rounding::size(rp) <= 8real * most(),
        rounding::size(rq) <= 8real * most(),
        0real < rounding::size(lam),
        rounding::size(lam) * k4() >= 1real,
        x >= least(),
    ensures
        rounding::size(n.0 * rp) + rounding::size(n.1 * rq) + rounding::size(n.2) <= 2real * (
        rounding::size(lam) * x),
        rounding::within(
            n.0 * rp + n.1 * rq + n.2,
            lam * v,
            16real * (rounding::unit() * (rounding::size(lam) * x)),
        ),
{
    let (a, b, c) = m;
    let (a1, b1, c1) = n;
    let (u, t, l) = (rounding::unit(), rounding::tiny(), rounding::size(lam));
    rounding::lemma_units_are_small();
    lemma_floor(l, x);
    lemma_divided_term(a1, a, rp, lam);
    lemma_divided_term(b1, b, rq, lam);
    let (f, g) = (a * rp, b * rq);
    let (sf, sg, sc) = (rounding::size(f), rounding::size(g), rounding::size(c));
    let lx = l * x;
    let ulx = u * lx;
    lemma_size_product(lam, f);
    lemma_size_product(lam, g);
    lemma_size_product(lam, c);
    let (lf, lg, lc) = (l * sf, l * sg, l * sc);
    lemma_scale_both(2real * (sf + sg + sc), 3real * x, l);
    lemma_spread_out(sf, sg, sc, l);
    assert((3real * x) * l == 3real * lx) by (nonlinear_arith)
        requires
            lx == l * x,
    ;
    lemma_scale_both(2real * (lf + lg + lc), 3real * lx, u);
    lemma_spread_out(lf, lg, lc, u);
    assert((3real * lx) * u == 3real * ulx) by (nonlinear_arith)
        requires
            ulx == u * lx,
    ;
    lemma_small_part(lx);
    lemma_small_part(lf);
    lemma_small_part(lg);
    lemma_small_part(lc);
    let (sum, e) = (f + g + c, 8real * (u * x));
    lemma_product_bound(sum - v, lam, e, l);
    let ux = u * x;
    assert((8real * ux) * l == 8real * (ux * l)) by (nonlinear_arith);
    assert(ux * l == ulx) by (nonlinear_arith)
        requires
            ux == u * x,
            ulx == u * lx,
            lx == l * x,
    ;
    let gap = sum - v;
    assert(gap * lam == lam * sum - lam * v) by (nonlinear_arith)
        requires
            gap == sum - v,
    ;
    assert(lam * sum == lam * f + lam * g + lam * c) by (nonlinear_arith)
        requires
            sum == f + g + c,
    ;
    lemma_add_up(
        (a1 * rp, b1 * rq, c1),
        (lam * f, lam * g, lam * c),
        (u * lf, u * lg, u * lc),
        9223372036854775808real * t,
        lam * v,
        lx,
        ulx,
    );
}

pub proof fn lemma_spread_out(a: real, b: real, c: real, l: real)
    ensures
        (2real * (a + b + c)) * l == 2real * (l * a + l * b + l * c),
{
    assert((2real * (a + b + c)) * l == 2real * (l * a + l * b + l * c)) by (nonlinear_arith);
}

/// A rounding is a small part of what is rounded.
pub proof fn lemma_small_part(a: real)
    requires
        0real <= a,
    ensures
        0real <= rounding::unit() * a,
        1000real * (rounding::unit() * a) <= a,
{
    rounding::lemma_units_are_small();
    let u = rounding::unit();
    assert(0real <= u * a && 1000real * (u * a) <= a) by (nonlinear_arith)
        requires
            0real <= a,
            0real < u,
            1000real * u <= 1real,
    ;
}

/// Three terms that are close to three others.
pub proof fn lemma_add_up(
    a: (real, real, real),
    b: (real, real, real),
    e: (real, real, real),
    t: real,
    v: real,
    x: real,
    ux: real,
)
    requires
        rounding::within(a.0, b.0, e.0 + t),
        rounding::within(a.1, b.1, e.1 + t),
        rounding::within(a.2, b.2, e.2 + t),
        2real * (rounding::size(b.0) + rounding::size(b.1) + rounding::size(b.2)) <= 3real * x,
        2real * (e.0 + e.1 + e.2) <= 3real * ux,
        rounding::within(b.0 + b.1 + b.2, v, 8real * ux),
        0real <= t,
        100real * t <= ux,
        1000real * ux <= x,
    ensures
        rounding::size(a.0) + rounding::size(a.1) + rounding::size(a.2) <= 2real * x,
        rounding::within(a.0 + a.1 + a.2, v, 16real * ux),
{
}

/// Entry `i` of the matrix whose last entry is made 1 is the entry times `lam`, but for
/// rounding.
pub open spec fn is_divided(m: Mat3, lam: real, i: int) -> bool {
    is_quotient_of(
        rounding::real_of(refine::in_chart(refine::chart_parameters(m))[i]),
        rounding::real_of(m[i]),
        lam,
    )
}

pub open spec fn is_start(m: Mat3, lam: real) -> bool {
    forall|i: int| 0 <= i < 9 ==> #[trigger] is_divided(m, lam, i)
}

/// Sums of squares stay below the limit of overflow.
pub proof fn lemma_floor_of_powers()
    ensures
        1532495540865888858358347027150309183618739122183602176real <= rounding::limit(),
        1766847064778384329583297500742918515827483896875618958121606201292619776real == k4(),
        k4() <= rounding::limit(),
{
    lemma_powers();
    let (k, a, b) = (most(), k4(), k8());
    let k2 = k * k;
    assert(k2 == 1329227995784915872903807060280344576real) by (nonlinear_arith)
        requires
            k2 == k * k,
            k == 1152921504606846976real,
    ;
    assert(a == k2 * k2);
    assert(a == 1766847064778384329583297500742918515827483896875618958121606201292619776real)
        by (nonlinear_arith)
        requires
            a == k2 * k2,
            k2 == 1329227995784915872903807060280344576real,
    ;
    assert(b <= b * b) by (nonlinear_arith)
        requires
            b >= 1real,
    ;
}

} // verus!
