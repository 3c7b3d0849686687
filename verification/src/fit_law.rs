//! What rounding can cost a refinement: how far the costs of refined homographies can be
//! above those of the given ones.
use vstd::arithmetic::power2;
use vstd::prelude::*;

use crate::double;
use crate::double::Double;
use crate::edge::Point;
use crate::fit_error;
use crate::homography;
use crate::homography::Chart;
use crate::least_squares;
use crate::linalg;
use crate::linalg::Mat3;
use crate::refine;
use crate::rounding;

verus! {

/// The exact sum of the first `n` squares.
pub open spec fn exact_cost(a: Seq<Double>, n: int) -> real
    decreases n,
{
    if n <= 0 {
        0real
    } else {
        exact_cost(a, n - 1) + rounding::real_of(a[n - 1]) * rounding::real_of(a[n - 1])
    }
}

/// By how much the sum of the first `n` squares can grow where entry `i` changes by at
/// most `slack(i)`.
pub open spec fn spread(a: Seq<Double>, slack: spec_fn(int) -> real, n: int) -> real
    decreases n,
{
    if n <= 0 {
        0real
    } else {
        spread(a, slack, n - 1) + slack(n - 1) * (2real * rounding::size(
            rounding::real_of(a[n - 1]),
        ) + slack(n - 1))
    }
}

/// A computed sum of squares is the exact one but for its rounding.
proof fn lemma_cost(a: Seq<Double>, n: int)
    requires
        0 <= n <= a.len(),
        n <= 1099511627776,
        forall|i: int|
            0 <= i < a.len() ==> (#[trigger] a[i]).finite() && rounding::size(
                rounding::real_of(a[i]),
            ) <= 4real * fit_error::most(),
    ensures
        homography::square_sum(a, n).finite(),
        0real <= exact_cost(a, n) <= n as real * 21267647932558653966460912964485513216real,
        rounding::within(
            rounding::real_of(homography::square_sum(a, n)),
            exact_cost(a, n),
            4real * ((n as real * rounding::unit()) * exact_cost(a, n)) + 2real * (n as real
                * rounding::tiny()),
        ),
    decreases n,
{
    rounding::lemma_units_are_small();
    rounding::lemma_constants();
    let (u, t) = (rounding::unit(), rounding::tiny());
    if n <= 0 {
        assert(n as real == 0real);
        assert((0real * u) * 0real == 0real && 0real * t == 0real) by (nonlinear_arith);
    } else {
        lemma_cost(a, n - 1);
        fit_error::lemma_powers();
        let d = a[n - 1];
        assert(d.finite());
        let r = rounding::real_of(d);
        let (a2, k) = (r * r, fit_error::most());
        fit_error::lemma_product_bound(r, r, 4real * k, 4real * k);
        assert(a2 >= 0real && (4real * k) * (4real * k)
            == 21267647932558653966460912964485513216real) by (nonlinear_arith)
            requires
                a2 == r * r,
                k == 1152921504606846976real,
        ;
        let nr = (n - 1) as real;
        let (e, c) = (exact_cost(a, n - 1), rounding::real_of(homography::square_sum(a, n - 1)));
        let (nu, nt) = (nr * u, nr * t);
        let (nue, nua, ue, ua, unt, ut) = (nu * e, nu * a2, u * e, u * a2, u * nt, u * t);
        assert(0real <= nu && 4096real * nu <= 1real && 0real <= nt) by (nonlinear_arith)
            requires
                nu == nr * u,
                nt == nr * t,
                0real <= nr <= 1099511627776real,
                u * 4503599627370496real == 1real,
                0real < u,
                0real < t,
        ;
        assert(0real <= nue && 4096real * nue <= e && 0real <= nua && 0real <= ue && 0real <= ua
            && 1000000real * ua <= a2 && 0real <= ut && 1000000real * ut <= t && 0real <= unt)
            by (nonlinear_arith)
            requires
                nue == nu * e,
                nua == nu * a2,
                ue == u * e,
                ua == u * a2,
                unt == u * nt,
                ut == u * t,
                0real <= nu,
                4096real * nu <= 1real,
                0real <= e,
                0real <= a2,
                0real < u,
                1000000real * u <= 1real,
                0real < t,
                0real <= nt,
        ;
        assert(1000real * unt <= t) by (nonlinear_arith)
            requires
                unt == u * nt,
                nt == nr * t,
                nu == nr * u,
                4096real * nu <= 1real,
                0real < t,
        {
            assert(unt == nu * t);
        }
        let kk = fit_error::k8();
        fit_error::lemma_floor_of_powers();
        rounding::lemma_product(d, d);
        let f = double::product(d, d);
        let fr = rounding::real_of(f);
        let total = c + fr;
        rounding::lemma_sum(homography::square_sum(a, n - 1), f);
        let st = rounding::size(total);
        let ust = u * st;
        assert(100real * ust <= 102real * ue + 102real * ua + 200real * unt + 102real * ut)
            by (nonlinear_arith)
            requires
                100real * st <= 102real * e + 102real * a2 + 200real * nt + 102real * t,
                ust == u * st,
                ue == u * e,
                ua == u * a2,
                unt == u * nt,
                ut == u * t,
                0real < u,
        ;
        let n1 = n as real;
        assert((n1 * u) * (e + a2) == nue + nua + ue + ua && n1 * t == nt + t)
            by (nonlinear_arith)
            requires
                n1 == nr + 1real,
                nu == nr * u,
                nt == nr * t,
                nue == nu * e,
                nua == nu * a2,
                ue == u * e,
                ua == u * a2,
        ;
    }
}

/// What the exact sum of squares grows by.
proof fn lemma_spread(a: Seq<Double>, b: Seq<Double>, slack: spec_fn(int) -> real, n: int)
    requires
        0 <= n,
        forall|i: int|
            0 <= i < n ==> 0real <= #[trigger] slack(i) && rounding::within(
                rounding::real_of(b[i]),
                rounding::real_of(a[i]),
                slack(i),
            ),
    ensures
        exact_cost(b, n) <= exact_cost(a, n) + spread(a, slack, n),
        0real <= spread(a, slack, n),
    decreases n,
{
    if n > 0 {
        lemma_spread(a, b, slack, n - 1);
        let (x, y, d) = (
            rounding::real_of(a[n - 1]),
            rounding::real_of(b[n - 1]),
            slack(n - 1),
        );
        let s = rounding::size(x);
        fit_error::lemma_product_bound(y, y, s + d, s + d);
        assert((s + d) * (s + d) == x * x + d * (2real * s + d) && 0real <= d * (2real * s + d)
            && y * y >= 0real) by (nonlinear_arith)
            requires
                s == x || s == -x,
                0real <= s,
                0real <= d,
        ;
    }
}

/// A cost that is no larger but for the changes and the rounding.
proof fn lemma_grown(a: Seq<Double>, b: Seq<Double>, slack: spec_fn(int) -> real)
    requires
        a.len() == b.len() <= 1099511627776,
        forall|i: int|
            0 <= i < a.len() ==> (#[trigger] a[i]).finite() && rounding::size(
                rounding::real_of(a[i]),
            ) <= 4real * fit_error::most(),
        forall|i: int|
            0 <= i < b.len() ==> (#[trigger] b[i]).finite() && rounding::size(
                rounding::real_of(b[i]),
            ) <= 4real * fit_error::most(),
        forall|i: int|
            0 <= i < a.len() ==> 0real <= #[trigger] slack(i) && rounding::within(
                rounding::real_of(b[i]),
                rounding::real_of(a[i]),
                slack(i),
            ),
    ensures
        least_squares::cost_of(a).finite(),
        least_squares::cost_of(b).finite(),
        rounding::real_of(least_squares::cost_of(b)) <= rounding::real_of(
            least_squares::cost_of(a),
        ) + allowance(a, slack),
{
    let n = a.len() as int;
    lemma_cost(a, n);
    lemma_cost(b, n);
    lemma_spread(a, b, slack, n);
    rounding::lemma_units_are_small();
    let (u, t, m) = (rounding::unit(), rounding::tiny(), n as real);
    let (ea, eb, g) = (exact_cost(a, n), exact_cost(b, n), spread(a, slack, n));
    let (ca, cb) = (
        rounding::real_of(least_squares::cost_of(a)),
        rounding::real_of(least_squares::cost_of(b)),
    );
    let (mu, mt) = (m * u, m * t);
    assert(0real <= mu && 4096real * mu <= 1real && 0real <= mt) by (nonlinear_arith)
        requires
            mu == m * u,
            mt == m * t,
            0real <= m <= 1099511627776real,
            u * 4503599627370496real == 1real,
            0real < u,
            0real < t,
    ;
    let (mea, meb, mca, mg, mmt) = (mu * ea, mu * eb, mu * ca, mu * g, mu * mt);
    assert(0real <= mea && 4096real * mea <= ea && 0real <= mg && 0real <= mmt && 4096real * mmt
        <= mt && meb <= mea + mg) by (nonlinear_arith)
        requires
            mea == mu * ea,
            meb == mu * eb,
            mg == mu * g,
            mmt == mu * mt,
            0real <= mu,
            4096real * mu <= 1real,
            0real <= ea,
            0real <= g,
            0real <= mt,
            eb <= ea + g,
    ;
    assert(mea <= 2real * mca + 4real * mmt) by (nonlinear_arith)
        requires
            mea == mu * ea,
            mca == mu * ca,
            mmt == mu * mt,
            0real <= mu,
            ea <= 2real * ca + 4real * mt,
    ;
    assert(16real * ((m * u) * (ca + g)) == 16real * mca + 16real * mg) by (nonlinear_arith)
        requires
            mu == m * u,
            mca == mu * ca,
            mg == mu * g,
    ;
}

/// What a sum of squares can gain where its entries change by at most `slack`: the
/// exact gain, and what rounding adds.
pub open spec fn allowance(a: Seq<Double>, slack: spec_fn(int) -> real) -> real {
    let g = spread(a, slack, a.len() as int);
    let m = a.len() as real;
    g + 16real * ((m * rounding::unit()) * (rounding::real_of(least_squares::cost_of(a)) + g))
        + 8real * (m * rounding::tiny())
}

/// The inverse of an entry of this size.
proof fn lemma_inverse(d: real, s: real) -> (lam: real)
    requires
        fit_error::least() <= rounding::size(d),
        2real * rounding::size(d) <= 3real * s,
        fit_error::least() <= s <= 66461399789245793645190353014017228800real,
    ensures
        lam != 0real,
        lam * d == 1real,
        0real < rounding::size(lam) <= fit_error::most(),
        rounding::size(lam) * fit_error::k4() >= 1real,
        2real * (rounding::size(lam) * s) <= fit_error::k8(),
        3real * (rounding::size(lam) * s) <= rounding::limit(),
{
    fit_error::lemma_powers();
    fit_error::lemma_floor_of_powers();
    let (k, kk, least) = (fit_error::most(), fit_error::k4(), fit_error::least());
    let lam = 1real / d;
    rounding::lemma_ratio(1real, d);
    fit_error::lemma_size_product(lam, d);
    let (l, sd) = (rounding::size(lam), rounding::size(d));
    assert(l > 0real) by (nonlinear_arith)
        requires
            l * sd == 1real,
            sd > 0real,
            l >= 0real,
    ;
    fit_error::lemma_scale_both(least, sd, k);
    fit_error::lemma_scale_both(1real, sd * k, l);
    assert((sd * k) * l == k) by (nonlinear_arith)
        requires
            l * sd == 1real,
    ;
    assert(1real * l == l) by (nonlinear_arith);
    fit_error::lemma_scale_both(sd, kk, l);
    assert(sd * l == l * sd) by (nonlinear_arith);
    assert(kk * l == l * kk) by (nonlinear_arith);
    fit_error::lemma_product_bound(l, s, k, 66461399789245793645190353014017228800real);
    lam
}

/// One entry of the matrix whose last entry is made 1.
proof fn lemma_start_entry(m: Mat3, i: int, lam: real, s: real)
    requires
        0 <= i < 9,
        m[i].finite(),
        m[8].finite(),
        2real * rounding::size(rounding::real_of(m[i])) <= 3real * s,
        lam * rounding::real_of(m[8]) == 1real,
        0real < rounding::size(lam),
        rounding::size(lam) * fit_error::k4() >= 1real,
        3real * (rounding::size(lam) * s) <= rounding::limit(),
        fit_error::least() <= s,
    ensures
        fit_error::is_divided(m, lam, i),
        refine::in_chart(refine::chart_parameters(m))[i].finite(),
        rounding::size(
            rounding::real_of(refine::in_chart(refine::chart_parameters(m))[i]),
        ) <= 2real * (rounding::size(lam) * s),
{
    let n = refine::in_chart(refine::chart_parameters(m))[i];
    let d = rounding::real_of(m[8]);
    if i < 8 {
        assert(n == double::quotient(m[i], m[8]));
        assert(d != 0real) by (nonlinear_arith)
            requires
                lam * d == 1real,
        ;
    } else {
        assert(n == Double { bits: linalg::ONE });
        rounding::lemma_constants();
    }
    lemma_entry_size(rounding::real_of(m[i]), lam, s);
    if i < 8 {
        fit_error::lemma_divided(m[i], m[8], lam);
    }
    lemma_quotient_size(rounding::real_of(n), rounding::real_of(m[i]), lam, s);
}

proof fn lemma_entry_size(r: real, lam: real, s: real)
    requires
        2real * rounding::size(r) <= 3real * s,
        0real < rounding::size(lam),
    ensures
        2real * (rounding::size(lam) * rounding::size(r)) <= 3real * (rounding::size(lam) * s),
        0real <= rounding::size(lam) * rounding::size(r),
{
    let (l, a) = (rounding::size(lam), rounding::size(r));
    fit_error::lemma_scale_both(2real * a, 3real * s, l);
    assert((2real * a) * l == 2real * (l * a)) by (nonlinear_arith);
    assert((3real * s) * l == 3real * (l * s)) by (nonlinear_arith);
    assert(0real <= l * a) by (nonlinear_arith)
        requires
            0real <= l,
            0real <= a,
    ;
}

proof fn lemma_quotient_size(c: real, r: real, lam: real, s: real)
    requires
        fit_error::is_quotient_of(c, r, lam) || c == lam * r,
        2real * rounding::size(r) <= 3real * s,
        0real < rounding::size(lam),
        rounding::size(lam) * fit_error::k4() >= 1real,
        fit_error::least() <= s,
    ensures
        fit_error::is_quotient_of(c, r, lam),
        rounding::size(c) <= 2real * (rounding::size(lam) * s),
{
    lemma_entry_size(r, lam, s);
    rounding::lemma_units_are_small();
    let (l, a) = (rounding::size(lam), rounding::size(r));
    fit_error::lemma_small_part(l * a);
    fit_error::lemma_size_product(lam, r);
    fit_error::lemma_floor(l, s);
}

/// The image of a point under the matrix whose last entry is made 1.
proof fn lemma_start_image(
    m: Mat3,
    p: Double,
    q: Double,
    v: (real, real, real),
    x: (real, real, real),
    s: real,
) -> (i: (Double, Double))
    requires
        forall|i: int| 0 <= i < 9 ==> (#[trigger] m[i]).finite() && 2real * rounding::size(
            rounding::real_of(m[i]),
        ) <= 3real * s,
        fit_error::least() <= rounding::size(rounding::real_of(m[8])),
        p.finite(),
        q.finite(),
        rounding::size(rounding::real_of(p)) <= 8real * fit_error::most(),
        rounding::size(rounding::real_of(q)) <= 8real * fit_error::most(),
        fit_error::is_reference(v, x, s),
        fit_error::is_near_row(m, 0, p, q, v.0, x.0),
        fit_error::is_near_row(m, 1, p, q, v.1, x.1),
        fit_error::is_near_row(m, 2, p, q, v.2, x.2),
    ensures
        homography::image_of(refine::in_chart(refine::chart_parameters(m)), p, q) == Some(i),
        fit_error::is_image(i, v, x),
{
    fit_error::lemma_floor_of_powers();
    assert(m[8].finite());
    let lam = lemma_inverse(rounding::real_of(m[8]), s);
    let n = refine::in_chart(refine::chart_parameters(m));
    assert forall|i: int| 0 <= i < 9 implies #[trigger] fit_error::is_divided(m, lam, i) by {
        assert(m[i].finite());
        lemma_start_entry(m, i, lam, s);
    }
    assert forall|i: int| 0 <= i < 9 implies (#[trigger] n[i]).finite() && rounding::size(
        rounding::real_of(n[i]),
    ) <= 2real * (rounding::size(lam) * s) by {
        assert(m[i].finite());
        lemma_start_entry(m, i, lam, s);
    }
    fit_error::lemma_start_row(m, 0, p, q, v.0, x.0, lam);
    fit_error::lemma_start_row(m, 1, p, q, v.1, x.1, lam);
    fit_error::lemma_start_row(m, 2, p, q, v.2, x.2, lam);
    fit_error::lemma_image(refine::in_chart(refine::chart_parameters(m)), p, q, lam, v, x, s)
}

/// The exact image of a point, and what rounding can put it off by, are of moderate
/// size.
proof fn lemma_reference(v: real, w: real, x: real, z: real, s: real)
    requires
        0real < x <= s,
        0real < z <= s,
        rounding::size(v) <= x,
        68719476736real * rounding::size(w) >= s,
    ensures
        rounding::size(v / w) <= 68719476736real,
        0real < (x * z) / (w * w) / 70368744177664real <= 67108864real,
{
    let (sw, sv) = (rounding::size(w), rounding::size(v));
    let q = v / w;
    rounding::lemma_ratio(v, w);
    fit_error::lemma_size_product(q, w);
    fit_error::lemma_cancel(rounding::size(q), 68719476736real, sw);
    let (ww, xz) = (w * w, x * z);
    fit_error::lemma_size_product(w, w);
    assert(ww > 0real && ww == sw * sw) by (nonlinear_arith)
        requires
            ww == w * w,
            sw == w || sw == -w,
            sw > 0real,
    ;
    fit_error::lemma_product_bound(x, z, 68719476736real * sw, 68719476736real * sw);
    assert((68719476736real * sw) * (68719476736real * sw) == 4722366482869645213696real * ww
        && xz > 0real) by (nonlinear_arith)
        requires
            ww == sw * sw,
            xz == x * z,
            x > 0real,
            z > 0real,
    ;
    let e = xz / ww;
    rounding::lemma_ratio(xz, ww);
    fit_error::lemma_cancel(e, 4722366482869645213696real, ww);
    assert(e > 0real) by (nonlinear_arith)
        requires
            e * ww == xz,
            xz > 0real,
            ww > 0real,
    ;
}

/// Two images close to the same exact one are off a target by nearly the same.
proof fn lemma_two_offsets(i: Double, j: Double, e: Double, exact: real, b: real)
    requires
        i.finite(),
        j.finite(),
        fit_error::is_moderate(e),
        rounding::size(exact) <= 68719476736real,
        0real < b <= 67108864real,
        rounding::within(rounding::real_of(i), exact, b),
        rounding::within(rounding::real_of(j), exact, b),
    ensures
        double::difference(i, e).finite(),
        double::difference(j, e).finite(),
        rounding::size(rounding::real_of(double::difference(i, e))) <= 4real * fit_error::most(),
        rounding::size(rounding::real_of(double::difference(j, e))) <= 4real * fit_error::most(),
        rounding::within(
            rounding::real_of(double::difference(j, e)),
            rounding::real_of(double::difference(i, e)),
            3real * b + 3real * (rounding::unit() * rounding::size(
                rounding::real_of(double::difference(i, e)),
            )),
        ),
{
    rounding::lemma_scales();
    rounding::lemma_units_are_small();
    let u = rounding::unit();
    rounding::lemma_difference(i, e);
    rounding::lemma_difference(j, e);
    let (x, y) = (
        rounding::real_of(i) - rounding::real_of(e),
        rounding::real_of(j) - rounding::real_of(e),
    );
    let (sx, sy) = (rounding::size(x), rounding::size(y));
    let o = rounding::real_of(double::difference(i, e));
    let so = rounding::size(o);
    let (ux, uy, uo, ub) = (u * sx, u * sy, u * so, u * b);
    assert(1000real * ux <= sx && 1000real * uy <= sy && 0real <= ux && 0real <= uy && 0real <= ub
        && 1000real * ub <= b) by (nonlinear_arith)
        requires
            ux == u * sx,
            uy == u * sy,
            ub == u * b,
            0real < u,
            1000real * u <= 1real,
            0real <= sx,
            0real <= sy,
            0real < b,
    ;
    assert(uy <= ux + 2real * ub) by (nonlinear_arith)
        requires
            ux == u * sx,
            uy == u * sy,
            ub == u * b,
            0real < u,
            sy <= sx + 2real * b,
    ;
    assert(999real * ux <= 1000real * uo) by (nonlinear_arith)
        requires
            ux == u * sx,
            uo == u * so,
            0real < u,
            999real * sx <= 1000real * so,
    ;
}

/// Points of finite, moderate coordinates.
pub open spec fn are_moderate(pts: Seq<Point>) -> bool {
    forall|i: int|
        0 <= i < pts.len() ==> fit_error::is_moderate((#[trigger] pts[i])[0]) && fit_error::is_moderate(pts[i][1])
}

/// No point's weight is lost to cancellation.
pub open spec fn are_clear(h: Mat3, pts: Seq<Point>) -> bool {
    forall|i: int| 0 <= i < pts.len() ==> is_clear_at(h, #[trigger] pts[i])
}

pub open spec fn is_clear_at(h: Mat3, p: Point) -> bool {
    fit_error::is_clear(
        h,
        rounding::real_of(p[0]),
        rounding::real_of(p[1]),
        rounding::size(rounding::real_of(p[0])),
        rounding::size(rounding::real_of(p[1])),
    )
}

/// What entry `i` of the offsets can change by where the homography is computed at
/// another scale: three times what rounding can put the image off by, and three
/// roundings of the offset.
pub open spec fn slack_of(h: Mat3, src: Seq<Point>, dst: Seq<Point>) -> spec_fn(int) -> real {
    |i: int|
        {
            let p = src[i / 2];
            let (x, y) = (rounding::real_of(p[0]), rounding::real_of(p[1]));
            3real * fit_error::blur(h, i % 2, x, y, rounding::size(x), rounding::size(y)) + 3real * (
            rounding::unit() * rounding::size(
                rounding::real_of(refine::offsets(h, src, dst)[i]),
            ))
        }
}

/// A row at a point itself is the exact row.
proof fn lemma_own_row(h: Mat3, row: int, p: Double, q: Double)
    requires
        0 <= row < 3,
    ensures
        fit_error::is_near_row(
            h,
            row,
            p,
            q,
            fit_error::row_value(h, row, rounding::real_of(p), rounding::real_of(q)),
            fit_error::row_extent(
                h,
                row,
                rounding::size(rounding::real_of(p)),
                rounding::size(rounding::real_of(q)),
            ),
        ),
{
    reveal(fit_error::row_value);
    let (x, y) = (rounding::real_of(p), rounding::real_of(q));
    fit_error::lemma_terms(h, row, x, y, rounding::size(x), rounding::size(y));
    rounding::lemma_units_are_small();
    fit_error::lemma_powers();
    let (u, e) = (
        rounding::unit(),
        fit_error::row_extent(h, row, rounding::size(x), rounding::size(y)),
    );
    assert(0real <= u * e) by (nonlinear_arith)
        requires
            0real < u,
            0real < e,
    ;
}

/// The offsets of one point under a homography, and where its last entry is made 1.
proof fn lemma_scaled_offsets(h: Mat3, p: Point, e: Point)
    requires
        fit_error::is_moderate_matrix(h),
        fit_error::least() <= rounding::size(rounding::real_of(h[8])),
        fit_error::is_moderate(p[0]),
        fit_error::is_moderate(p[1]),
        fit_error::is_moderate(e[0]),
        fit_error::is_moderate(e[1]),
        is_clear_at(h, p),
    ensures
        ({
            let (x, y) = (rounding::real_of(p[0]), rounding::real_of(p[1]));
            let (a, b) = (
                refine::offset(h, p, e),
                refine::offset(refine::in_chart(refine::chart_parameters(h)), p, e),
            );
            &&& is_close_offset(
                a[0],
                b[0],
                fit_error::blur(h, 0, x, y, rounding::size(x), rounding::size(y)),
            )
            &&& is_close_offset(
                a[1],
                b[1],
                fit_error::blur(h, 1, x, y, rounding::size(x), rounding::size(y)),
            )
        }),
{
    let (x, y) = (rounding::real_of(p[0]), rounding::real_of(p[1]));
    let (ax, ay) = (rounding::size(x), rounding::size(y));
    fit_error::lemma_extents(h, ax, ay);
    let s = fit_error::point_extent(h, ax, ay);
    let v = (fit_error::row_value(h, 0, x, y), fit_error::row_value(h, 1, x, y), fit_error::row_value(h, 2, x, y));
    let w = (fit_error::row_extent(h, 0, ax, ay), fit_error::row_extent(h, 1, ax, ay), fit_error::row_extent(h, 2, ax, ay));
    fit_error::lemma_terms(h, 0, x, y, ax, ay);
    fit_error::lemma_terms(h, 1, x, y, ax, ay);
    fit_error::lemma_terms(h, 2, x, y, ax, ay);
    fit_error::lemma_powers();
    lemma_own_row(h, 0, p[0], p[1]);
    lemma_own_row(h, 1, p[0], p[1]);
    lemma_own_row(h, 2, p[0], p[1]);
    assert forall|i: int| 0 <= i < 9 implies (#[trigger] h[i]).finite() && rounding::size(
        rounding::real_of(h[i]),
    ) <= s by {
        assert(fit_error::is_moderate(h[i]));
    }
    let i = fit_error::lemma_near_image(h, p[0], p[1], v, w, s);
    let j = lemma_start_image(h, p[0], p[1], v, w, s);
    lemma_reference(v.0, v.2, w.0, w.2, s);
    lemma_reference(v.1, v.2, w.1, w.2, s);
    lemma_two_offsets(
        i.0,
        j.0,
        e[0],
        v.0 / v.2,
        (w.0 * w.2) / (v.2 * v.2) / 70368744177664real,
    );
    lemma_two_offsets(
        i.1,
        j.1,
        e[1],
        v.1 / v.2,
        (w.1 * w.2) / (v.2 * v.2) / 70368744177664real,
    );
}

/// Two finite offsets that differ by no more than the slack for this blur.
spec fn is_close_offset(a: Double, b: Double, blur: real) -> bool {
    &&& a.finite() && b.finite()
    &&& rounding::size(rounding::real_of(a)) <= 4real * fit_error::most()
    &&& rounding::size(rounding::real_of(b)) <= 4real * fit_error::most()
    &&& 0real < blur
    &&& rounding::within(
        rounding::real_of(b),
        rounding::real_of(a),
        3real * blur + 3real * (rounding::unit() * rounding::size(rounding::real_of(a))),
    )
}

/// Making the last entry of a homography 1 costs no more than rounding.
proof fn lemma_start_cost(h: Mat3, src: Seq<Point>, dst: Seq<Point>)
    requires
        src.len() == dst.len() <= 549755813888,
        fit_error::is_moderate_matrix(h),
        fit_error::least() <= rounding::size(rounding::real_of(h[8])),
        are_moderate(src),
        are_moderate(dst),
        are_clear(h, src),
    ensures
        ({
            let a = refine::offsets(h, src, dst);
            let b = refine::offsets(refine::in_chart(refine::chart_parameters(h)), src, dst);
            &&& least_squares::cost_of(a).finite()
            &&& least_squares::cost_of(b).finite()
            &&& rounding::real_of(least_squares::cost_of(b)) <= rounding::real_of(
                least_squares::cost_of(a),
            ) + allowance(a, slack_of(h, src, dst))
        }),
{
    let a = refine::offsets(h, src, dst);
    let b = refine::offsets(refine::in_chart(refine::chart_parameters(h)), src, dst);
    let slack = slack_of(h, src, dst);
    rounding::lemma_units_are_small();
    assert forall|i: int| 0 <= i < a.len() implies (#[trigger] a[i]).finite() && rounding::size(
        rounding::real_of(a[i]),
    ) <= 4real * fit_error::most() by {
        lemma_entry(h, src, dst, i);
    }
    assert forall|i: int| 0 <= i < b.len() implies (#[trigger] b[i]).finite() && rounding::size(
        rounding::real_of(b[i]),
    ) <= 4real * fit_error::most() by {
        lemma_entry(h, src, dst, i);
    }
    assert forall|i: int| 0 <= i < a.len() implies 0real <= #[trigger] slack(i)
        && rounding::within(rounding::real_of(b[i]), rounding::real_of(a[i]), slack(i)) by {
        lemma_entry(h, src, dst, i);
        let (u, s) = (rounding::unit(), rounding::size(rounding::real_of(a[i])));
        assert(0real <= u * s) by (nonlinear_arith)
            requires
                0real < u,
                0real <= s,
        ;
    }
    lemma_grown(a, b, slack);
}

/// One entry of the offsets.
proof fn lemma_entry(h: Mat3, src: Seq<Point>, dst: Seq<Point>, i: int)
    requires
        src.len() == dst.len(),
        0 <= i < 2 * src.len(),
        fit_error::is_moderate_matrix(h),
        fit_error::least() <= rounding::size(rounding::real_of(h[8])),
        are_moderate(src),
        are_moderate(dst),
        are_clear(h, src),
    ensures
        ({
            let p = src[i / 2];
            let (x, y) = (rounding::real_of(p[0]), rounding::real_of(p[1]));
            is_close_offset(
                refine::offsets(h, src, dst)[i],
                refine::offsets(refine::in_chart(refine::chart_parameters(h)), src, dst)[i],
                fit_error::blur(h, i % 2, x, y, rounding::size(x), rounding::size(y)),
            )
        }),
{
    let (p, e) = (src[i / 2], dst[i / 2]);
    assert(fit_error::is_moderate(p[0]) && fit_error::is_moderate(p[1]) && fit_error::is_moderate(e[0]) && fit_error::is_moderate(e[1]));
    assert(is_clear_at(h, p));
    lemma_scaled_offsets(h, p, e);
}

/// Refining by the entries relative to the last one costs no more than rounding.
proof fn lemma_direct_cost(
    h: Mat3,
    src: Seq<Point>,
    dst: Seq<Point>,
)
    requires
        src.len() == dst.len() <= 549755813888,
        fit_error::is_moderate_matrix(h),
        fit_error::least() <= rounding::size(rounding::real_of(h[8])),
        are_moderate(src),
        are_moderate(dst),
        are_clear(h, src),
    ensures
        ({
            let given = refine::offsets(h, src, dst);
            let refined = refine::offsets(refine::refined_directly(h, src, dst), src, dst);
            &&& least_squares::cost_of(given).finite()
            &&& !least_squares::cost_of(refined).nan()
            &&& rounding::real_of(least_squares::cost_of(refined)) <= rounding::real_of(
                least_squares::cost_of(given),
            ) + allowance(given, slack_of(h, src, dst))
        }),
{
    lemma_start_cost(h, src, dst);
    refine::law_refinement_never_fits_worse(h, src, dst);
    let start = refine::offsets(refine::in_chart(refine::chart_parameters(h)), src, dst);
    let end = refine::offsets(refine::refined_directly(h, src, dst), src, dst);
    let (c, d) = (least_squares::cost_of(end), least_squares::cost_of(start));
    rounding::lemma_order(c, d);
}

/// A row times a column, in doubles.
proof fn lemma_dot(a: Double, b: Double, c: Double, p: Double, q: Double, w: Double)
    requires
        a.finite(),
        b.finite(),
        c.finite(),
        p.finite(),
        q.finite(),
        w.finite(),
        rounding::size(rounding::real_of(a) * rounding::real_of(p)) <= fit_error::k4(),
        rounding::size(rounding::real_of(b) * rounding::real_of(q)) <= fit_error::k4(),
        rounding::size(rounding::real_of(c) * rounding::real_of(w)) <= fit_error::k4(),
    ensures
        ({
            let n = double::sum(
                double::sum(double::product(a, p), double::product(b, q)),
                double::product(c, w),
            );
            let (x, y, z) = (
                rounding::real_of(a) * rounding::real_of(p),
                rounding::real_of(b) * rounding::real_of(q),
                rounding::real_of(c) * rounding::real_of(w),
            );
            &&& n.finite()
            &&& rounding::within(
                rounding::real_of(n),
                x + y + z,
                6real * (rounding::unit() * (rounding::size(x) + rounding::size(y)
                    + rounding::size(z))) + 5real * rounding::tiny(),
            )
        }),
{
    fit_error::lemma_powers();
    fit_error::lemma_floor_of_powers();
    rounding::lemma_units_are_small();
    rounding::lemma_scales();
    let (u, t, kk) = (rounding::unit(), rounding::tiny(), fit_error::k4());
    let (x, y, z) = (
        rounding::real_of(a) * rounding::real_of(p),
        rounding::real_of(b) * rounding::real_of(q),
        rounding::real_of(c) * rounding::real_of(w),
    );
    rounding::lemma_product(c, w);
    let d = double::product(c, w);
    let z1 = rounding::real_of(d);
    let (sx, sy, sz) = (rounding::size(x), rounding::size(y), rounding::size(z));
    fit_error::lemma_small_part(sz);
    fit_error::lemma_small_part(sx);
    fit_error::lemma_small_part(sy);
    assert(kk * kk >= 2real * kk) by (nonlinear_arith)
        requires
            kk >= 2real,
    ;
    fit_error::lemma_row(a, b, d, p, q);
    let s1 = rounding::size(z1);
    fit_error::lemma_scale_both(s1, sz + u * sz + t, u);
    let usz = u * sz;
    fit_error::lemma_small_part(usz);
    fit_error::lemma_small_part(t);
    assert((sz + usz + t) * u == u * sz + u * usz + u * t) by (nonlinear_arith);
    assert(s1 * u == u * s1) by (nonlinear_arith);
    assert(4real * u * (sx + sy + s1) == 4real * (u * sx) + 4real * (u * sy) + 4real * (u * s1))
        by (nonlinear_arith);
    assert(6real * (u * (sx + sy + sz)) == 6real * (u * sx) + 6real * (u * sy) + 6real * (u * sz))
        by (nonlinear_arith);
}

/// Entries of a row of a homography after a translation.
spec fn dot(m: Mat3, row: int, p: Double, q: Double, w: Double) -> Double {
    double::sum(
        double::sum(double::product(m[3 * row], p), double::product(m[3 * row + 1], q)),
        double::product(m[3 * row + 2], w),
    )
}

proof fn lemma_translated_entries(m: Mat3, row: int, o: Point)
    requires
        0 <= row < 3,
    ensures
        ({
            let n = linalg::mat_product(m, homography::translation(o));
            let (zero, one) = (Double { bits: 0 }, Double { bits: linalg::ONE });
            &&& n[3 * row] == dot(m, row, one, zero, zero)
            &&& n[3 * row + 1] == dot(m, row, zero, one, zero)
            &&& n[3 * row + 2] == dot(m, row, o[0], o[1], one)
        }),
{
    let b = homography::translation(o);
    let n = linalg::mat_product(m, b);
    assert(n[3 * row] == linalg::row_times_column(m, b, row, 0));
    assert(n[3 * row + 1] == linalg::row_times_column(m, b, row, 1));
    assert(n[3 * row + 2] == linalg::row_times_column(m, b, row, 2));
}

/// Off by no more than six roundings of this size, and five of the least double.
spec fn is_off_by(a: real, b: real, size: real) -> bool {
    rounding::within(a, b, 6real * (rounding::unit() * size) + 5real * rounding::tiny())
}

/// The numbers of a row of a homography after a translation.
proof fn lemma_translated_numbers(m: Mat3, row: int, o: Point)
    requires
        0 <= row < 3,
        fit_error::is_moderate(m[3 * row]),
        fit_error::is_moderate(m[3 * row + 1]),
        fit_error::is_moderate(m[3 * row + 2]),
        fit_error::is_moderate(o[0]),
        fit_error::is_moderate(o[1]),
    ensures
        ({
            let (zero, one) = (Double { bits: 0 }, Double { bits: linalg::ONE });
            let (d, e, f) = (
                dot(m, row, one, zero, zero),
                dot(m, row, zero, one, zero),
                dot(m, row, o[0], o[1], one),
            );
            let (a, b, c) = (
                rounding::real_of(m[3 * row]),
                rounding::real_of(m[3 * row + 1]),
                rounding::real_of(m[3 * row + 2]),
            );
            let (x, y) = (a * rounding::real_of(o[0]), b * rounding::real_of(o[1]));
            &&& d.finite() && e.finite() && f.finite()
            &&& is_off_by(rounding::real_of(d), a, rounding::size(a))
            &&& is_off_by(rounding::real_of(e), b, rounding::size(b))
            &&& is_off_by(
                rounding::real_of(f),
                x + y + c,
                rounding::size(x) + rounding::size(y) + rounding::size(c),
            )
        }),
{
    let (d, e, f) = (m[3 * row], m[3 * row + 1], m[3 * row + 2]);
    let (zero, one) = (Double { bits: 0 }, Double { bits: linalg::ONE });
    rounding::lemma_constants();
    fit_error::lemma_powers();
    fit_error::lemma_floor_of_powers();
    let k = fit_error::most();
    let (a, b, c) = (rounding::real_of(d), rounding::real_of(e), rounding::real_of(f));
    let (x, y) = (rounding::real_of(o[0]), rounding::real_of(o[1]));
    fit_error::lemma_product_bound(a, x, k, k);
    fit_error::lemma_product_bound(b, y, k, k);
    let kk = k * k;
    assert(kk == 1329227995784915872903807060280344576real) by (nonlinear_arith)
        requires
            kk == k * k,
            k == 1152921504606846976real,
    ;
    lemma_times_constants(a);
    lemma_times_constants(b);
    lemma_times_constants(c);
    lemma_dot(d, e, f, one, zero, zero);
    lemma_dot(d, e, f, zero, one, zero);
    lemma_dot(d, e, f, o[0], o[1], one);
}

proof fn lemma_times_constants(a: real)
    ensures
        a * 1real == a,
        a * 0real == 0real,
{
    assert(a * 1real == a && a * 0real == 0real) by (nonlinear_arith);
}

/// A term whose factors are both rounded.
proof fn lemma_rounded_term(a1: real, a: real, p: real, x: real, g: real)
    requires
        is_off_by(a1, a, rounding::size(a)),
        rounding::within(p, x, rounding::unit() * rounding::size(x)),
        rounding::size(x) <= g <= 4real * fit_error::most(),
    ensures
        100real * rounding::size(a1 * p - a * x) <= 702real * (rounding::unit() * (rounding::size(a)
            * g)) + 14757395258967641292800real * rounding::tiny(),
        rounding::size(a * x) <= rounding::size(a) * g,
        0real <= rounding::size(a) * g,
{
    rounding::lemma_units_are_small();
    let (u, t) = (rounding::unit(), rounding::tiny());
    let sa = rounding::size(a);
    let (e, f) = (a1 - a, p - x);
    let ag = sa * g;
    fit_error::lemma_product_bound(a, x, sa, g);
    fit_error::lemma_small_part(rounding::size(x));
    fit_error::lemma_small_part(g);
    fit_error::lemma_scale_both(rounding::size(x), g, u);
    let ug = u * g;
    assert(rounding::size(x) * u == u * rounding::size(x) && g * u == ug) by (nonlinear_arith)
        requires
            ug == u * g,
    ;
    let (ua, bound) = (u * sa, 6real * (u * sa) + 5real * t);
    fit_error::lemma_product_bound(e, p, bound, g + ug);
    fit_error::lemma_product_bound(a, f, sa, ug);
    assert(a1 * p - a * x == e * p + a * f) by (nonlinear_arith)
        requires
            e == a1 - a,
            f == p - x,
    ;
    let (uag, tg) = (u * ag, t * g);
    assert(sa * ug == uag) by (nonlinear_arith)
        requires
            ug == u * g,
            uag == u * ag,
            ag == sa * g,
    ;
    assert(ua * g == uag) by (nonlinear_arith)
        requires
            ua == u * sa,
            uag == u * ag,
            ag == sa * g,
    ;
    assert(ua * ug == u * uag) by (nonlinear_arith)
        requires
            ua == u * sa,
            ug == u * g,
            uag == u * ag,
            ag == sa * g,
    ;
    let tug = t * ug;
    assert(bound * (g + ug) == 6real * (ua * g) + 6real * (ua * ug) + 5real * tg + 5real * tug)
        by (nonlinear_arith)
        requires
            bound == 6real * ua + 5real * t,
            tg == t * g,
            tug == t * ug,
    ;
    fit_error::lemma_small_part(ag);
    fit_error::lemma_small_part(uag);
    fit_error::lemma_scale_both(ug, g, t);
    fit_error::lemma_scale_both(g, 4611686018427387904real, t);
    assert(ug * t == tug && g * t == tg) by (nonlinear_arith)
        requires
            tug == t * ug,
            tg == t * g,
    ;
}

/// The terms of a row at a rounded point, after a translation.
proof fn lemma_moved_terms(
    n: (real, real, real),
    m: (real, real, real),
    p: (real, real),
    x: (real, real),
    o: (real, real),
    g: (real, real),
    extent: real,
)
    requires
        is_off_by(n.0, m.0, rounding::size(m.0)),
        is_off_by(n.1, m.1, rounding::size(m.1)),
        is_off_by(
            n.2,
            m.0 * o.0 + m.1 * o.1 + m.2,
            rounding::size(m.0 * o.0) + rounding::size(m.1 * o.1) + rounding::size(m.2),
        ),
        rounding::within(p.0, x.0, rounding::unit() * rounding::size(x.0)),
        rounding::within(p.1, x.1, rounding::unit() * rounding::size(x.1)),
        rounding::size(x.0) <= g.0 <= 4real * fit_error::most(),
        rounding::size(x.1) <= g.1 <= 4real * fit_error::most(),
        rounding::size(m.0) * g.0 + rounding::size(m.0 * o.0) + rounding::size(m.1) * g.1
            + rounding::size(m.1 * o.1) + rounding::size(m.2) + fit_error::least() <= extent,
    ensures
        2real * (rounding::size(n.0 * p.0) + rounding::size(n.1 * p.1) + rounding::size(n.2))
            <= 3real * extent,
        rounding::within(
            n.0 * p.0 + n.1 * p.1 + n.2,
            m.0 * (x.0 + o.0) + m.1 * (x.1 + o.1) + m.2,
            8real * (rounding::unit() * extent),
        ),
{
    fit_error::lemma_powers();
    fit_error::lemma_floor_of_powers();
    rounding::lemma_units_are_small();
    let (u, t) = (rounding::unit(), rounding::tiny());
    lemma_rounded_term(n.0, m.0, p.0, x.0, g.0);
    lemma_rounded_term(n.1, m.1, p.1, x.1, g.1);
    let (mo, no) = (m.0 * o.0, m.1 * o.1);
    let (f, h) = (rounding::size(m.0) * g.0, rounding::size(m.1) * g.1);
    let rest = rounding::size(mo) + rounding::size(no) + rounding::size(m.2);
    let all = f + h + rest;
    fit_error::lemma_small_part(f);
    fit_error::lemma_small_part(h);
    fit_error::lemma_small_part(rest);
    fit_error::lemma_small_part(all);
    fit_error::lemma_scale_both(all, extent, u);
    assert(all * u == u * f + u * h + u * rest) by (nonlinear_arith)
        requires
            all == f + h + rest,
    ;
    assert(extent * u == u * extent) by (nonlinear_arith);
    assert(1real * fit_error::k4() == fit_error::k4() && 1real * extent == extent)
        by (nonlinear_arith);
    fit_error::lemma_floor(1real, extent);
    let (mx, nx) = (m.0 * x.0, m.1 * x.1);
    assert(m.0 * (x.0 + o.0) == mx + mo) by (nonlinear_arith)
        requires
            mx == m.0 * x.0,
            mo == m.0 * o.0,
    ;
    assert(m.1 * (x.1 + o.1) == nx + no) by (nonlinear_arith)
        requires
            nx == m.1 * x.1,
            no == m.1 * o.1,
    ;
    lemma_moved_sum(
        (n.0 * p.0, n.1 * p.1, n.2),
        (mx, nx),
        (mo, no, m.2),
        (f, h),
        (u * f, u * h, u * rest),
        t,
        extent,
        u * extent,
    );
}

proof fn lemma_moved_sum(
    a: (real, real, real),
    b: (real, real),
    o: (real, real, real),
    f: (real, real),
    e: (real, real, real),
    t: real,
    x: real,
    ux: real,
)
    requires
        100real * rounding::size(a.0 - b.0) <= 702real * e.0 + 14757395258967641292800real * t,
        100real * rounding::size(a.1 - b.1) <= 702real * e.1 + 14757395258967641292800real * t,
        rounding::within(a.2, o.0 + o.1 + o.2, 6real * e.2 + 5real * t),
        rounding::size(b.0) <= f.0,
        rounding::size(b.1) <= f.1,
        f.0 + f.1 + rounding::size(o.0) + rounding::size(o.1) + rounding::size(o.2) <= x,
        e.0 + e.1 + e.2 <= ux,
        0real <= e.0,
        0real <= e.1,
        0real <= e.2,
        1000real * ux <= x,
        0real < t,
        1267650600228229401496703205376real * t <= ux,
    ensures
        2real * (rounding::size(a.0) + rounding::size(a.1) + rounding::size(a.2)) <= 3real * x,
        rounding::within(a.0 + a.1 + a.2, b.0 + o.0 + b.1 + o.1 + o.2, 8real * ux),
{
}

/// A number that is off another by little is not much larger.
proof fn lemma_off_size(a: real, b: real, size: real, s: real)
    requires
        is_off_by(a, b, size),
        rounding::size(b) <= size <= s,
        fit_error::least() <= s,
    ensures
        2real * rounding::size(a) <= 3real * s,
{
    fit_error::lemma_powers();
    fit_error::lemma_floor_of_powers();
    rounding::lemma_units_are_small();
    let k = fit_error::k4();
    assert(1real * k == k && 1real * s == s) by (nonlinear_arith);
    fit_error::lemma_floor(1real, s);
    fit_error::lemma_small_part(size);
}

/// A row of a translated homography at a rounded point.
proof fn lemma_moved_row(
    m: Mat3,
    row: int,
    o: Point,
    p: Double,
    q: Double,
    x: real,
    y: real,
    ax: real,
    ay: real,
)
    requires
        0 <= row < 3,
        fit_error::is_moderate_matrix(m),
        fit_error::is_moderate(o[0]),
        fit_error::is_moderate(o[1]),
        rounding::within(rounding::real_of(p), x, rounding::unit() * rounding::size(x)),
        rounding::within(rounding::real_of(q), y, rounding::unit() * rounding::size(y)),
        rounding::size(x) + rounding::size(rounding::real_of(o[0])) <= ax,
        rounding::size(y) + rounding::size(rounding::real_of(o[1])) <= ay,
        ax <= 4real * fit_error::most(),
        ay <= 4real * fit_error::most(),
    ensures
        ({
            let n = linalg::mat_product(m, homography::translation(o));
            let s = fit_error::point_extent(m, ax, ay);
            &&& fit_error::is_near_row(
                n,
                row,
                p,
                q,
                fit_error::row_value(
                    m,
                    row,
                    x + rounding::real_of(o[0]),
                    y + rounding::real_of(o[1]),
                ),
                fit_error::row_extent(m, row, ax, ay),
            )
            &&& is_entry(n[3 * row], s) && is_entry(n[3 * row + 1], s) && is_entry(
                n[3 * row + 2],
                s,
            )
        }),
{
    let n = linalg::mat_product(m, homography::translation(o));
    assert(fit_error::is_moderate(m[3 * row]) && fit_error::is_moderate(m[3 * row + 1])
        && fit_error::is_moderate(m[3 * row + 2]));
    lemma_translated_entries(m, row, o);
    lemma_translated_numbers(m, row, o);
    let (ox, oy) = (rounding::real_of(o[0]), rounding::real_of(o[1]));
    let (a, b, c) = (
        rounding::real_of(m[3 * row]),
        rounding::real_of(m[3 * row + 1]),
        rounding::real_of(m[3 * row + 2]),
    );
    let s = fit_error::point_extent(m, ax, ay);
    let extent = fit_error::row_extent(m, row, ax, ay);
    fit_error::lemma_extents(m, ax, ay);
    fit_error::lemma_terms(m, row, ox, oy, ax, ay);
    assert(extent <= s) by {
        assert(row == 0 || row == 1 || row == 2);
    }
    assert(rounding::size(a) <= s && rounding::size(b) <= s);
    fit_error::lemma_powers();
    lemma_off_size(rounding::real_of(n[3 * row]), a, rounding::size(a), s);
    lemma_off_size(rounding::real_of(n[3 * row + 1]), b, rounding::size(b), s);
    lemma_off_size(
        rounding::real_of(n[3 * row + 2]),
        a * ox + b * oy + c,
        rounding::size(a * ox) + rounding::size(b * oy) + rounding::size(c),
        s,
    );
    let g = (ax - rounding::size(ox), ay - rounding::size(oy));
    lemma_split(a, ox, ax);
    lemma_split(b, oy, ay);
    assert(extent == rounding::size(a) * ax + rounding::size(b) * ay + rounding::size(c)
        + fit_error::least()) by {
        reveal(fit_error::row_extent);
    }
    assert(fit_error::row_value(m, row, x + ox, y + oy) == a * (x + ox) + b * (y + oy) + c) by {
        reveal(fit_error::row_value);
    }
    lemma_moved_terms(
        (
            rounding::real_of(n[3 * row]),
            rounding::real_of(n[3 * row + 1]),
            rounding::real_of(n[3 * row + 2]),
        ),
        (a, b, c),
        (rounding::real_of(p), rounding::real_of(q)),
        (x, y),
        (ox, oy),
        g,
        extent,
    );
}

/// A finite entry of no more than one and a half times this size.
spec fn is_entry(d: Double, s: real) -> bool {
    d.finite() && 2real * rounding::size(rounding::real_of(d)) <= 3real * s
}

proof fn lemma_split(a: real, o: real, ax: real)
    ensures
        rounding::size(a) * (ax - rounding::size(o)) + rounding::size(a * o) == rounding::size(a)
            * ax,
{
    fit_error::lemma_size_product(a, o);
    let (sa, so) = (rounding::size(a), rounding::size(o));
    assert(sa * (ax - so) + sa * so == sa * ax) by (nonlinear_arith);
}

/// A row at a rounded point.
proof fn lemma_rounded_row(
    m: Mat3,
    row: int,
    p: Double,
    q: Double,
    x: real,
    y: real,
    ax: real,
    ay: real,
)
    requires
        0 <= row < 3,
        rounding::within(rounding::real_of(p), x, rounding::unit() * rounding::size(x)),
        rounding::within(rounding::real_of(q), y, rounding::unit() * rounding::size(y)),
        rounding::size(x) <= ax <= 4real * fit_error::most(),
        rounding::size(y) <= ay <= 4real * fit_error::most(),
    ensures
        fit_error::is_near_row(
            m,
            row,
            p,
            q,
            fit_error::row_value(m, row, x, y),
            fit_error::row_extent(m, row, ax, ay),
        ),
{
    let (a, b, c) = (
        rounding::real_of(m[3 * row]),
        rounding::real_of(m[3 * row + 1]),
        rounding::real_of(m[3 * row + 2]),
    );
    let extent = fit_error::row_extent(m, row, ax, ay);
    assert(extent == rounding::size(a) * ax + rounding::size(b) * ay + rounding::size(c)
        + fit_error::least()) by {
        reveal(fit_error::row_extent);
    }
    assert(fit_error::row_value(m, row, x, y) == a * x + b * y + c) by {
        reveal(fit_error::row_value);
    }
    rounding::lemma_units_are_small();
    fit_error::lemma_small_part(rounding::size(a));
    fit_error::lemma_small_part(rounding::size(b));
    fit_error::lemma_small_part(rounding::size(c));
    lemma_times_constants(a);
    lemma_times_constants(b);
    lemma_moved_terms(
        (a, b, c),
        (a, b, c),
        (rounding::real_of(p), rounding::real_of(q)),
        (x, y),
        (0real, 0real),
        (ax, ay),
        extent,
    );
}

/// Size that the coordinates of `p` and of points about `o` stay within.
pub open spec fn reach(p: Double, o: Double) -> real {
    rounding::size(rounding::real_of(p)) + 2real * rounding::size(rounding::real_of(o))
}

/// A coordinate, itself or relative to an origin.
pub open spec fn coordinate(p: Double, o: Double, relative: bool) -> real {
    if relative {
        rounding::real_of(p) - rounding::real_of(o)
    } else {
        rounding::real_of(p)
    }
}

/// The weight at a point, itself or relative to an origin, is not lost to cancellation.
pub open spec fn is_clear_about(m: Mat3, p: Point, o: Point, relative: bool) -> bool {
    fit_error::is_clear(
        m,
        coordinate(p[0], o[0], relative),
        coordinate(p[1], o[1], relative),
        reach(p[0], o[0]),
        reach(p[1], o[1]),
    )
}

/// How far rounding can put the image of a point off, where points are moved to an
/// origin and back.
pub open spec fn blur_about(m: Mat3, row: int, p: Point, o: Point, relative: bool) -> real {
    fit_error::blur(
        m,
        row,
        coordinate(p[0], o[0], relative),
        coordinate(p[1], o[1], relative),
        reach(p[0], o[0]),
        reach(p[1], o[1]),
    )
}

/// What entry `i` of the offsets `a` can change by where points are moved to an origin
/// or back.
pub open spec fn slack_about(
    m: Mat3,
    src: Seq<Point>,
    o: Point,
    relative: bool,
    a: Seq<Double>,
) -> spec_fn(int) -> real {
    |i: int|
        3real * blur_about(m, i % 2, src[i / 2], o, relative) + 3real * (rounding::unit()
            * rounding::size(rounding::real_of(a[i])))
}

/// A point relative to an origin.
spec fn moved(p: Point, o: Point) -> Point {
    [p[0] - o[0], p[1] - o[1]]
}

/// What images are held against, for a matrix that is clear at a point.
proof fn lemma_clear(m: Mat3, x: real, y: real, ax: real, ay: real)
    requires
        fit_error::is_moderate_matrix(m),
        fit_error::is_clear(m, x, y, ax, ay),
        rounding::size(x) <= ax <= 4real * fit_error::most(),
        rounding::size(y) <= ay <= 4real * fit_error::most(),
    ensures
        fit_error::is_reference(
            (
                fit_error::row_value(m, 0, x, y),
                fit_error::row_value(m, 1, x, y),
                fit_error::row_value(m, 2, x, y),
            ),
            (
                fit_error::row_extent(m, 0, ax, ay),
                fit_error::row_extent(m, 1, ax, ay),
                fit_error::row_extent(m, 2, ax, ay),
            ),
            fit_error::point_extent(m, ax, ay),
        ),
        0real < fit_error::least(),
        forall|i: int| 0 <= i < 9 ==> is_entry(#[trigger] m[i], fit_error::point_extent(m, ax, ay)),
{
    fit_error::lemma_powers();
    fit_error::lemma_extents(m, ax, ay);
    fit_error::lemma_terms(m, 0, x, y, ax, ay);
    fit_error::lemma_terms(m, 1, x, y, ax, ay);
    fit_error::lemma_terms(m, 2, x, y, ax, ay);
    let s = fit_error::point_extent(m, ax, ay);
    assert forall|i: int| 0 <= i < 9 implies is_entry(#[trigger] m[i], s) by {
        assert(fit_error::is_moderate(m[i]));
        assert(rounding::size(rounding::real_of(m[i])) <= s);
    }
}

/// Offsets of two images that are close to the same exact one.
proof fn lemma_offsets_about(
    i: (Double, Double),
    j: (Double, Double),
    e: Point,
    m: Mat3,
    p: Point,
    o: Point,
    relative: bool,
)
    requires
        fit_error::is_moderate(e[0]),
        fit_error::is_moderate(e[1]),
        ({
            let (x, y) = (coordinate(p[0], o[0], relative), coordinate(p[1], o[1], relative));
            let (ax, ay) = (reach(p[0], o[0]), reach(p[1], o[1]));
            let v = (
                fit_error::row_value(m, 0, x, y),
                fit_error::row_value(m, 1, x, y),
                fit_error::row_value(m, 2, x, y),
            );
            let w = (
                fit_error::row_extent(m, 0, ax, ay),
                fit_error::row_extent(m, 1, ax, ay),
                fit_error::row_extent(m, 2, ax, ay),
            );
            &&& fit_error::is_reference(v, w, fit_error::point_extent(m, ax, ay))
            &&& fit_error::is_image(i, v, w)
            &&& fit_error::is_image(j, v, w)
        }),
    ensures
        is_close_offset(
            double::difference(i.0, e[0]),
            double::difference(j.0, e[0]),
            blur_about(m, 0, p, o, relative),
        ),
        is_close_offset(
            double::difference(i.1, e[1]),
            double::difference(j.1, e[1]),
            blur_about(m, 1, p, o, relative),
        ),
{
    fit_error::lemma_powers();
    let (x, y) = (coordinate(p[0], o[0], relative), coordinate(p[1], o[1], relative));
    let (ax, ay) = (reach(p[0], o[0]), reach(p[1], o[1]));
    let s = fit_error::point_extent(m, ax, ay);
    let (v0, v1, v2) = (
        fit_error::row_value(m, 0, x, y),
        fit_error::row_value(m, 1, x, y),
        fit_error::row_value(m, 2, x, y),
    );
    let (w0, w1, w2) = (
        fit_error::row_extent(m, 0, ax, ay),
        fit_error::row_extent(m, 1, ax, ay),
        fit_error::row_extent(m, 2, ax, ay),
    );
    lemma_reference(v0, v2, w0, w2, s);
    lemma_reference(v1, v2, w1, w2, s);
    lemma_two_offsets(i.0, j.0, e[0], v0 / v2, blur_about(m, 0, p, o, relative));
    lemma_two_offsets(i.1, j.1, e[1], v1 / v2, blur_about(m, 1, p, o, relative));
}

/// A moderate point relative to a moderate origin.
proof fn lemma_moved_point(p: Double, o: Double)
    requires
        fit_error::is_moderate(p),
        fit_error::is_moderate(o),
    ensures
        double::difference(p, o).finite(),
        rounding::within(
            rounding::real_of(double::difference(p, o)),
            rounding::real_of(p) - rounding::real_of(o),
            rounding::unit() * rounding::size(rounding::real_of(p) - rounding::real_of(o)),
        ),
        rounding::size(rounding::real_of(double::difference(p, o))) <= 8real * fit_error::most(),
        rounding::within(
            rounding::real_of(p),
            rounding::real_of(p),
            rounding::unit() * rounding::size(rounding::real_of(p)),
        ),
        rounding::real_of(o.opposite()) == -rounding::real_of(o),
        o.opposite().finite(),
{
    rounding::lemma_scales();
    rounding::lemma_difference(p, o);
    fit_error::lemma_small_part(rounding::size(rounding::real_of(p) - rounding::real_of(o)));
    fit_error::lemma_small_part(rounding::size(rounding::real_of(p)));
    double::lemma_opposite_value(o);
    rounding::lemma_parts(o);
    rounding::lemma_parts(o.opposite());
    let (x, y, c) = (
        rounding::real_of(o),
        rounding::real_of(o.opposite()),
        rounding::unit_count(),
    );
    assert(y == -x) by (nonlinear_arith)
        requires
            y * c == -(x * c),
            c > 0real,
    ;
}

/// The offsets of a point under a homography, and of the moved point under the shifted
/// one whose last entry is made 1.
proof fn lemma_offsets_there(h: Mat3, o: Point, p: Point, e: Point)
    requires
        fit_error::is_moderate_matrix(h),
        fit_error::least() <= rounding::size(
            rounding::real_of(linalg::mat_product(h, homography::translation(o))[8]),
        ),
        fit_error::is_moderate(p[0]),
        fit_error::is_moderate(p[1]),
        fit_error::is_moderate(o[0]),
        fit_error::is_moderate(o[1]),
        fit_error::is_moderate(e[0]),
        fit_error::is_moderate(e[1]),
        is_clear_about(h, p, o, false),
    ensures
        ({
            let shifted = linalg::mat_product(h, homography::translation(o));
            let (a, b) = (
                refine::offset(h, p, e),
                refine::offset(
                    refine::in_chart(refine::chart_parameters(shifted)),
                    moved(p, o),
                    e,
                ),
            );
            &&& is_close_offset(a[0], b[0], blur_about(h, 0, p, o, false))
            &&& is_close_offset(a[1], b[1], blur_about(h, 1, p, o, false))
        }),
{
    let shifted = linalg::mat_product(h, homography::translation(o));
    let (x, y) = (rounding::real_of(p[0]), rounding::real_of(p[1]));
    let (ox, oy) = (rounding::real_of(o[0]), rounding::real_of(o[1]));
    let (ax, ay) = (reach(p[0], o[0]), reach(p[1], o[1]));
    lemma_moved_point(p[0], o[0]);
    lemma_moved_point(p[1], o[1]);
    let n = moved(p, o);
    lemma_clear(h, x, y, ax, ay);
    lemma_rounded_row(h, 0, p[0], p[1], x, y, ax, ay);
    lemma_rounded_row(h, 1, p[0], p[1], x, y, ax, ay);
    lemma_rounded_row(h, 2, p[0], p[1], x, y, ax, ay);
    lemma_moved_row(h, 0, o, n[0], n[1], x - ox, y - oy, ax, ay);
    lemma_moved_row(h, 1, o, n[0], n[1], x - ox, y - oy, ax, ay);
    lemma_moved_row(h, 2, o, n[0], n[1], x - ox, y - oy, ax, ay);
    assert(x - ox + ox == x && y - oy + oy == y);
    let s = fit_error::point_extent(h, ax, ay);
    let v = (
        fit_error::row_value(h, 0, x, y),
        fit_error::row_value(h, 1, x, y),
        fit_error::row_value(h, 2, x, y),
    );
    let w = (
        fit_error::row_extent(h, 0, ax, ay),
        fit_error::row_extent(h, 1, ax, ay),
        fit_error::row_extent(h, 2, ax, ay),
    );
    lemma_all_entries(shifted, s);
    let i = lemma_entry_image(h, p[0], p[1], v, w, s);
    let j = lemma_start_image(shifted, n[0], n[1], v, w, s);
    lemma_offsets_about(i, j, e, h, p, o, false);
}

/// The offsets of a moved point under a matrix, and of the point itself under the
/// matrix moved back.
proof fn lemma_offsets_back(g: Mat3, o: Point, p: Point, e: Point)
    requires
        fit_error::is_moderate_matrix(g),
        fit_error::is_moderate(p[0]),
        fit_error::is_moderate(p[1]),
        fit_error::is_moderate(o[0]),
        fit_error::is_moderate(o[1]),
        fit_error::is_moderate(e[0]),
        fit_error::is_moderate(e[1]),
        is_clear_about(g, p, o, true),
    ensures
        ({
            let back = homography::translation([o[0].opposite(), o[1].opposite()]);
            let (a, b) = (
                refine::offset(g, moved(p, o), e),
                refine::offset(linalg::mat_product(g, back), p, e),
            );
            &&& is_close_offset(a[0], b[0], blur_about(g, 0, p, o, true))
            &&& is_close_offset(a[1], b[1], blur_about(g, 1, p, o, true))
        }),
{
    let q: Point = [o[0].opposite(), o[1].opposite()];
    let last = linalg::mat_product(g, homography::translation(q));
    let (x, y) = (rounding::real_of(p[0]), rounding::real_of(p[1]));
    let (ox, oy) = (rounding::real_of(o[0]), rounding::real_of(o[1]));
    let (ax, ay) = (reach(p[0], o[0]), reach(p[1], o[1]));
    lemma_moved_point(p[0], o[0]);
    lemma_moved_point(p[1], o[1]);
    let n = moved(p, o);
    let (u, z) = (x - ox, y - oy);
    lemma_clear(g, u, z, ax, ay);
    lemma_rounded_row(g, 0, n[0], n[1], u, z, ax, ay);
    lemma_rounded_row(g, 1, n[0], n[1], u, z, ax, ay);
    lemma_rounded_row(g, 2, n[0], n[1], u, z, ax, ay);
    lemma_moved_row(g, 0, q, p[0], p[1], x, y, ax, ay);
    lemma_moved_row(g, 1, q, p[0], p[1], x, y, ax, ay);
    lemma_moved_row(g, 2, q, p[0], p[1], x, y, ax, ay);
    assert(x + rounding::real_of(q[0]) == u && y + rounding::real_of(q[1]) == z);
    let s = fit_error::point_extent(g, ax, ay);
    let v = (
        fit_error::row_value(g, 0, u, z),
        fit_error::row_value(g, 1, u, z),
        fit_error::row_value(g, 2, u, z),
    );
    let w = (
        fit_error::row_extent(g, 0, ax, ay),
        fit_error::row_extent(g, 1, ax, ay),
        fit_error::row_extent(g, 2, ax, ay),
    );
    lemma_all_entries(last, s);
    let i = lemma_entry_image(g, n[0], n[1], v, w, s);
    let j = lemma_entry_image(last, p[0], p[1], v, w, s);
    lemma_offsets_about(i, j, e, g, p, o, true);
}

/// Entries by rows are all entries.
proof fn lemma_all_entries(m: Mat3, s: real)
    requires
        is_entry(m[0], s),
        is_entry(m[1], s),
        is_entry(m[2], s),
        is_entry(m[3], s),
        is_entry(m[4], s),
        is_entry(m[5], s),
        is_entry(m[6], s),
        is_entry(m[7], s),
        is_entry(m[8], s),
    ensures
        forall|i: int| 0 <= i < 9 ==> is_entry(#[trigger] m[i], s),
        forall|i: int| 0 <= i < 9 ==> (#[trigger] m[i]).finite() && 2real * rounding::size(
            rounding::real_of(m[i]),
        ) <= 3real * s,
{
    assert forall|i: int| 0 <= i < 9 implies is_entry(#[trigger] m[i], s) by {
        assert(i == 0 || i == 1 || i == 2 || i == 3 || i == 4 || i == 5 || i == 6 || i == 7 || i
            == 8);
    }
    assert forall|i: int| 0 <= i < 9 implies (#[trigger] m[i]).finite() && 2real * rounding::size(
        rounding::real_of(m[i]),
    ) <= 3real * s by {
        assert(is_entry(m[i], s));
    }
}

/// The image under a matrix whose entries and rows are known.
proof fn lemma_entry_image(
    m: Mat3,
    p: Double,
    q: Double,
    v: (real, real, real),
    x: (real, real, real),
    s: real,
) -> (i: (Double, Double))
    requires
        forall|i: int| 0 <= i < 9 ==> is_entry(#[trigger] m[i], s),
        p.finite(),
        q.finite(),
        fit_error::is_reference(v, x, s),
        fit_error::is_near_row(m, 0, p, q, v.0, x.0),
        fit_error::is_near_row(m, 1, p, q, v.1, x.1),
        fit_error::is_near_row(m, 2, p, q, v.2, x.2),
    ensures
        homography::image_of(m, p, q) == Some(i),
        fit_error::is_image(i, v, x),
{
    fit_error::lemma_powers();
    assert forall|i: int| 0 <= i < 9 implies (#[trigger] m[i]).finite() && rounding::size(
        rounding::real_of(m[i]),
    ) <= 2real * s by {
        assert(is_entry(m[i], s));
    }
    fit_error::lemma_near_image(m, p, q, v, x, s)
}

/// Offsets that are close, entry by entry, cost nearly the same.
proof fn lemma_close_costs(
    a: Seq<Double>,
    b: Seq<Double>,
    blurs: spec_fn(int) -> real,
    slack: spec_fn(int) -> real,
)
    requires
        a.len() == b.len() <= 1099511627776,
        forall|i: int|
            0 <= i < a.len() ==> is_close_offset(a[i], b[i], #[trigger] blurs(i)) && slack(i)
                == 3real * blurs(i) + 3real * (rounding::unit() * rounding::size(
                rounding::real_of(a[i]),
            )),
    ensures
        least_squares::cost_of(a).finite(),
        least_squares::cost_of(b).finite(),
        rounding::real_of(least_squares::cost_of(b)) <= rounding::real_of(
            least_squares::cost_of(a),
        ) + allowance(a, slack),
{
    assert forall|i: int| 0 <= i < a.len() implies (#[trigger] a[i]).finite() && rounding::size(
        rounding::real_of(a[i]),
    ) <= 4real * fit_error::most() by {
        let c = blurs(i);
    }
    assert forall|i: int| 0 <= i < b.len() implies (#[trigger] b[i]).finite() && rounding::size(
        rounding::real_of(b[i]),
    ) <= 4real * fit_error::most() by {
        let c = blurs(i);
    }
    assert forall|i: int| 0 <= i < a.len() implies 0real <= #[trigger] slack(i)
        && rounding::within(rounding::real_of(b[i]), rounding::real_of(a[i]), slack(i)) by {
        let c = blurs(i);
        fit_error::lemma_small_part(rounding::size(rounding::real_of(a[i])));
    }
    lemma_grown(a, b, slack);
}

/// The homography that is found about a new origin, before it is moved back.
pub open spec fn found_about(
    shifted: Mat3,
    src: Seq<Point>,
    dst: Seq<Point>,
    origin: Point,
) -> Mat3 {
    refine::refined_directly(shifted, refine::about(src, origin), dst)
}

/// Moving a refinement to a new origin and back costs no more than rounding.
proof fn lemma_moved_cost(h: Mat3, src: Seq<Point>, dst: Seq<Point>, o: Point)
    requires
        src.len() == dst.len() <= 549755813888,
        fit_error::is_moderate_matrix(h),
        are_moderate(src),
        are_moderate(dst),
        is_movable(h, src, dst, o, linalg::mat_product(h, homography::translation(o))),
    ensures
        ({
            let shifted = linalg::mat_product(h, homography::translation(o));
            let g = found_about(shifted, src, dst, o);
            let back = homography::translation([o[0].opposite(), o[1].opposite()]);
            let given = refine::offsets(h, src, dst);
            let found = refine::offsets(g, refine::about(src, o), dst);
            let refined = refine::offsets(linalg::mat_product(g, back), src, dst);
            &&& least_squares::cost_of(given).finite()
            &&& !least_squares::cost_of(refined).nan()
            &&& rounding::real_of(least_squares::cost_of(refined)) <= rounding::real_of(
                least_squares::cost_of(given),
            ) + allowance(given, slack_about(h, src, o, false, given)) + allowance(
                found,
                slack_about(g, src, o, true, found),
            )
        }),
{
    let shifted = linalg::mat_product(h, homography::translation(o));
    let start = refine::in_chart(refine::chart_parameters(shifted));
    let g = found_about(shifted, src, dst, o);
    let back = homography::translation([o[0].opposite(), o[1].opposite()]);
    let pts = refine::about(src, o);
    let given = refine::offsets(h, src, dst);
    let first = refine::offsets(start, pts, dst);
    let found = refine::offsets(g, pts, dst);
    let refined = refine::offsets(linalg::mat_product(g, back), src, dst);
    let there = |i: int| blur_about(h, i % 2, src[i / 2], o, false);
    let again = |i: int| blur_about(g, i % 2, src[i / 2], o, true);
    assert forall|i: int| 0 <= i < given.len() implies is_close_offset(
        given[i],
        first[i],
        #[trigger] there(i),
    ) by {
        let (p, e) = (src[i / 2], dst[i / 2]);
        assert(fit_error::is_moderate(p[0]) && fit_error::is_moderate(p[1]));
        assert(fit_error::is_moderate(e[0]) && fit_error::is_moderate(e[1]));
        assert(is_clear_about(h, p, o, false));
        assert(pts[i / 2] == moved(p, o));
        lemma_offsets_there(h, o, p, e);
    }
    assert forall|i: int| 0 <= i < found.len() implies is_close_offset(
        found[i],
        refined[i],
        #[trigger] again(i),
    ) by {
        let (p, e) = (src[i / 2], dst[i / 2]);
        assert(fit_error::is_moderate(p[0]) && fit_error::is_moderate(p[1]));
        assert(fit_error::is_moderate(e[0]) && fit_error::is_moderate(e[1]));
        assert(is_clear_about(g, p, o, true));
        assert(pts[i / 2] == moved(p, o));
        lemma_offsets_back(g, o, p, e);
    }
    lemma_close_costs(given, first, there, slack_about(h, src, o, false, given));
    lemma_close_costs(found, refined, again, slack_about(g, src, o, true, found));
    refine::law_refinement_never_fits_worse(shifted, pts, dst);
    rounding::lemma_order(least_squares::cost_of(found), least_squares::cost_of(first));
}

/// A new origin under which no weight is lost: neither that of the given homography nor
/// that of the one found about the origin.
pub open spec fn is_movable(
    h: Mat3,
    src: Seq<Point>,
    dst: Seq<Point>,
    o: Point,
    shifted: Mat3,
) -> bool {
    let g = found_about(shifted, src, dst, o);
    &&& fit_error::is_moderate(o[0]) && fit_error::is_moderate(o[1])
    &&& fit_error::least() <= rounding::size(rounding::real_of(shifted[8]))
    &&& fit_error::is_moderate_matrix(g)
    &&& forall|i: int| 0 <= i < src.len() ==> is_clear_about(h, #[trigger] src[i], o, false)
    &&& forall|i: int| 0 <= i < src.len() ==> is_clear_about(g, #[trigger] src[i], o, true)
}

/// No weight is lost to cancellation in the chart that a homography is refined in.
pub open spec fn is_resolved(h: Mat3, src: Seq<Point>, dst: Seq<Point>) -> bool {
    match homography::chart_of(h, src) {
        Chart::Direct => fit_error::least() <= rounding::size(rounding::real_of(h[8])) && are_clear(
            h,
            src,
        ),
        Chart::Unrefined => true,
        Chart::Moved { origin, shifted } => is_movable(h, src, dst, origin, shifted),
    }
}

/// What rounding can add to the cost of a homography that is refined: nothing where it is
/// left as it is, once the allowance where its entries are taken relative to the last
/// one, and once more where it is moved to a new origin and back.
pub open spec fn refinement_error(h: Mat3, src: Seq<Point>, dst: Seq<Point>) -> real {
    let given = refine::offsets(h, src, dst);
    match homography::chart_of(h, src) {
        Chart::Direct => allowance(given, slack_of(h, src, dst)),
        Chart::Unrefined => 0real,
        Chart::Moved { origin, shifted } => {
            let g = found_about(shifted, src, dst, origin);
            let found = refine::offsets(g, refine::about(src, origin), dst);
            allowance(given, slack_about(h, src, origin, false, given)) + allowance(
                found,
                slack_about(g, src, origin, true, found),
            )
        },
    }
}

/// Refinement never fits worse, but for rounding: whatever chart a homography is refined
/// in, the squares of its offsets add up to no more than those of the given one and
/// `refinement_error`. That is what the sum can gain where each offset changes by three
/// times 2^-46 of what the terms of its rows amount to over the square of the weight, and
/// by three roundings, and where the sum itself is rounded.
pub proof fn law_refined_fits_no_worse_but_for_rounding(
    h: Mat3,
    src: Seq<Point>,
    dst: Seq<Point>,
)
    requires
        src.len() == dst.len() <= 549755813888,
        fit_error::is_moderate_matrix(h),
        are_moderate(src),
        are_moderate(dst),
        is_resolved(h, src, dst),
    ensures
        ({
            let given = least_squares::cost_of(refine::offsets(h, src, dst));
            let refined = least_squares::cost_of(
                refine::offsets(refine::refined_of(h, src, dst), src, dst),
            );
            &&& rounding::real_of(refined) <= rounding::real_of(given) + refinement_error(
                h,
                src,
                dst,
            )
            &&& !(homography::chart_of(h, src) is Unrefined) ==> given.finite() && !refined.nan()
        }),
{
    match homography::chart_of(h, src) {
        Chart::Direct => {
            lemma_direct_cost(h, src, dst);
        },
        Chart::Unrefined => {},
        Chart::Moved { origin, shifted } => {
            lemma_moved_cost(h, src, dst, origin);
        },
    }
}

} // verus!
