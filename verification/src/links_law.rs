//! What linking keyframes promises: what agrees counts, spread over the frame either way.
use vstd::arithmetic::power2;
use vstd::prelude::*;

use crate::closure::Quad;
use crate::double;
use crate::double::Double;
use crate::edge::Point;
use crate::homography::Estimate;
use crate::linalg::Mat3;
use crate::links;
use crate::loop_closure;
use crate::ordinary;
use crate::rounding;
use crate::significand;
use crate::vision::Vision;

verus! {

/// Every coordinate of the points along an axis is an ordinary number.
pub open spec fn are_ordinary(pts: Seq<Point>, axis: int) -> bool {
    forall|i: int| 0 <= i < pts.len() ==> ordinary::is_ordinary(#[trigger] pts[i][axis])
}

/// One of the first `n` points agrees.
pub open spec fn any_agrees(mask: Seq<bool>, n: int) -> bool {
    exists|i: int| 0 <= i < n && #[trigger] mask[i]
}

proof fn lemma_extremes(pts: Seq<Point>, mask: Seq<bool>, axis: int, n: int)
    requires
        0 <= n <= pts.len(),
        mask.len() == pts.len(),
        are_ordinary(pts, axis),
    ensures
        !any_agrees(mask, n) ==> links::lowest(pts, mask, axis, n) == (Double {
            bits: links::POS_INFINITY,
        }) && links::highest(pts, mask, axis, n) == (Double { bits: links::NEG_INFINITY }),
        any_agrees(mask, n) ==> {
            &&& exists|i: int|
                0 <= i < n && #[trigger] mask[i] && links::lowest(pts, mask, axis, n)
                    == pts[i][axis]
            &&& exists|i: int|
                0 <= i < n && #[trigger] mask[i] && links::highest(pts, mask, axis, n)
                    == pts[i][axis]
            &&& forall|i: int|
                0 <= i < n && #[trigger] mask[i] ==> links::lowest(pts, mask, axis, n).value()
                    <= pts[i][axis].value() <= links::highest(pts, mask, axis, n).value()
        },
    decreases n,
{
    if n > 0 {
        lemma_extremes(pts, mask, axis, n - 1);
        let v = pts[n - 1][axis];
        assert(ordinary::is_ordinary(v));
        let (lo, hi) = (
            links::lowest(pts, mask, axis, n - 1),
            links::highest(pts, mask, axis, n - 1),
        );
        if any_agrees(mask, n - 1) {
            let i = choose|i: int| 0 <= i < n - 1 && #[trigger] mask[i] && lo == pts[i][axis];
            let j = choose|j: int| 0 <= j < n - 1 && #[trigger] mask[j] && hi == pts[j][axis];
            assert(ordinary::is_ordinary(pts[i][axis]) && ordinary::is_ordinary(pts[j][axis]));
            assert(any_agrees(mask, n)) by {
                assert(mask[i]);
            }
            if mask[n - 1] {
                assert(mask[n - 1]);
            }
        } else if mask[n - 1] {
            assert(any_agrees(mask, n)) by {
                assert(mask[n - 1]);
            }
            let inf = Double { bits: links::POS_INFINITY };
            double::lemma_opposite_value(inf);
            crate::magnitude::lemma_units_increase(v.magnitude(), inf.magnitude());
            crate::magnitude::lemma_units_nonnegative(v.magnitude());
            assert(links::lowest(pts, mask, axis, n) == v);
            assert(links::highest(pts, mask, axis, n) == v);
        } else {
            assert(!any_agrees(mask, n)) by {
                if any_agrees(mask, n) {
                    let i = choose|i: int| 0 <= i < n && #[trigger] mask[i];
                    assert(i < n - 1);
                    assert(any_agrees(mask, n - 1));
                }
            }
        }
    }
}

/// The points that agree span enough of a side if two of them are a quarter of it apart,
/// whichever of them comes first, and do not if no two are.
pub proof fn law_span_is_a_quarter_of_the_side(
    pts: Seq<Point>,
    mask: Seq<bool>,
    axis: int,
    side: int,
    i: int,
    j: int,
)
    requires
        mask.len() == pts.len(),
        are_ordinary(pts, axis),
        0 <= i < pts.len(),
        0 <= j < pts.len(),
        mask[i],
        mask[j],
        1 <= side <= 1000000,
    ensures
        4000real * (rounding::real_of(pts[i][axis]) - rounding::real_of(pts[j][axis])) >= 1001real
            * (side as real) ==> links::spans(pts, mask, axis, side),
        (forall|a: int, b: int|
            0 <= a < pts.len() && 0 <= b < pts.len() && #[trigger] mask[a] && #[trigger] mask[b]
                ==> 4000real * (rounding::real_of(pts[a][axis]) - rounding::real_of(
                pts[b][axis],
            )) <= 999real * (side as real)) ==> !links::spans(pts, mask, axis, side),
{
    power2::lemma2_to64();
    power2::lemma2_to64_rest();
    let n = pts.len() as int;
    lemma_extremes(pts, mask, axis, n);
    assert(any_agrees(mask, n)) by {
        assert(mask[i]);
    }
    let (lo, hi) = (links::lowest(pts, mask, axis, n), links::highest(pts, mask, axis, n));
    let a = choose|a: int| 0 <= a < n && #[trigger] mask[a] && hi == pts[a][axis];
    let b = choose|b: int| 0 <= b < n && #[trigger] mask[b] && lo == pts[b][axis];
    assert(mask[a] && mask[b] && mask[i] && mask[j]);
    assert(ordinary::is_ordinary(pts[a][axis]) && ordinary::is_ordinary(pts[b][axis]));
    rounding::lemma_order(hi, pts[i][axis]);
    rounding::lemma_order(pts[j][axis], lo);
    ordinary::lemma_minus(hi, lo);
    let least = Double { bits: links::MIN_LINK_SPAN_FRAC };
    significand::lemma_bits_are(least, 54, 0x40_0000_0000_0000, 0x10_0000_0000_0000);
    double::lemma_whole(side);
    rounding::lemma_whole_real(double::whole(side), side);
    lemma_share(hi - lo, side);
    let q = (hi - lo).per(double::whole(side));
    rounding::lemma_order(q, least);
    let (v, s) = (rounding::real_of(q), side as real);
    if v < 1real / 4real {
        crate::fit_error::lemma_scale_both(v, 1real / 4real, s);
    } else {
        crate::fit_error::lemma_scale_both(1real / 4real, v, s);
    }
}

/// A share of a side.
proof fn lemma_share(d: Double, side: int)
    requires
        d.finite(),
        rounding::size(rounding::real_of(d)) <= 3000000000real,
        1 <= side <= 1000000,
    ensures
        d.per(double::whole(side)).finite(),
        rounding::within(
            rounding::real_of(d.per(double::whole(side))) * (side as real),
            rounding::real_of(d),
            1real / 100000real,
        ),
{
    double::lemma_whole(side);
    rounding::lemma_whole_real(double::whole(side), side);
    rounding::lemma_scales();
    rounding::lemma_units_are_small();
    let (x, y) = (rounding::real_of(d), side as real);
    rounding::lemma_ratio(x, y);
    let q = x / y;
    crate::fit_error::lemma_size_product(q, y);
    let (sq, sx) = (rounding::size(q), rounding::size(x));
    assert(sq <= sx) by (nonlinear_arith)
        requires
            sq * y == sx,
            y >= 1real,
            sq >= 0real,
    ;
    rounding::lemma_quotient(d, double::whole(side));
    let (u, t) = (rounding::unit(), rounding::tiny());
    let e = rounding::real_of(d.per(double::whole(side))) - q;
    crate::fit_error::lemma_size_product(e, y);
    let se = rounding::size(e);
    let usq = u * sq;
    crate::fit_error::lemma_scale_both(se, usq + t, y);
    assert((usq + t) * y == usq * y + t * y) by (nonlinear_arith);
    assert(usq * y == u * sx) by (nonlinear_arith)
        requires
            usq == u * sq,
            sq * y == sx,
    ;
    assert(u * sx <= u * 3000000000real && t * y <= t * 1000000real) by (nonlinear_arith)
        requires
            sx <= 3000000000real,
            y <= 1000000real,
            u > 0real,
            t > 0real,
    ;
    assert((q + e) * y == x + e * y) by (nonlinear_arith)
        requires
            q * y == x,
    ;
}

/// An estimate with ten inliers is acceptable where those that agree are spread along the
/// width, and also where they are spread along the height alone.
pub proof fn law_either_axis_supports_a_link(
    est: Estimate<Mat3>,
    src: Seq<Point>,
    w: int,
    h: int,
)
    ensures
        est.inliers < 10 ==> !links::is_acceptable(est, src, w, h),
        est.inliers >= 10 && links::spans(src, links::agreeing(est.residuals@), 0, w)
            ==> links::is_acceptable(est, src, w, h),
        est.inliers >= 10 && links::spans(src, links::agreeing(est.residuals@), 1, h)
            ==> links::is_acceptable(est, src, w, h),
        !links::spans(src, links::agreeing(est.residuals@), 0, w) && !links::spans(
            src,
            links::agreeing(est.residuals@),
            1,
            h,
        ) ==> !links::is_acceptable(est, src, w, h),
{
}

proof fn lemma_squares(a: Seq<Double>, b: Seq<Double>, mask: Seq<bool>, n: int)
    requires
        0 <= n <= mask.len(),
        forall|i: int| 0 <= i < n && #[trigger] mask[i] ==> a[i] == b[i],
    ensures
        links::inlier_squares(a, mask, n) == links::inlier_squares(b, mask, n),
    decreases n,
{
    if n > 0 {
        lemma_squares(a, b, mask, n - 1);
        if mask[n - 1] {
            assert(a[n - 1] == b[n - 1]);
        }
    }
}

/// What does not agree does not count: the residual of an outlier leaves the quality of a
/// link as it is.
pub proof fn law_outliers_do_not_count(a: Seq<Double>, b: Seq<Double>, mask: Seq<bool>)
    requires
        a.len() == mask.len(),
        b.len() == mask.len(),
        forall|i: int| 0 <= i < mask.len() && #[trigger] mask[i] ==> a[i] == b[i],
    ensures
        links::inlier_rms(a, mask) == links::inlier_rms(b, mask),
{
    lemma_squares(a, b, mask, mask.len() as int);
}

/// Matches are thinned out evenly: the first is kept, and then every so many, as few as
/// the cap of forty needs.
pub proof fn law_matches_are_thinned_evenly(idx: Seq<usize>, j: int)
    requires
        0 <= j < links::kept_of(idx).len(),
    ensures
        ({
            let step = links::stride(idx.len() as int);
            &&& step >= 1
            &&& 0 <= j * step < idx.len()
            &&& links::kept_of(idx)[j] == idx[j * step]
            &&& idx.len() <= 40 ==> step == 1
            &&& 40 * (step - 1) < idx.len()
        }),
{
    let n = idx.len() as int;
    let step = links::stride(n);
    lemma_every(idx, step, n, j);
    if n == 0 {
        assert(links::kept_of(idx).len() == 0);
    }
}

proof fn lemma_every<T>(list: Seq<T>, step: int, n: int, j: int)
    requires
        step >= 1,
        0 <= n <= list.len(),
        0 <= j < links::every(list, step, n).len(),
    ensures
        0 <= j * step < n,
        links::every(list, step, n)[j] == list[j * step],
    decreases n,
{
    if n > 0 {
        let before = links::every(list, step, n - 1);
        if j < before.len() {
            lemma_every(list, step, n - 1, j);
        } else {
            lemma_count(list, step, n - 1);
            vstd::arithmetic::div_mod::lemma_fundamental_div_mod(n - 1, step);
            let q = (n - 1) / step;
            assert(q * step == n - 1) by (nonlinear_arith)
                requires
                    n - 1 == step * q,
            ;
        }
    }
}

/// How many are kept of the first `n`, where the next one is kept too.
proof fn lemma_count<T>(list: Seq<T>, step: int, n: int)
    requires
        step >= 1,
        0 <= n,
    ensures
        links::every(list, step, n).len() == (n + step - 1) / step,
        n % step == 0 ==> links::every(list, step, n).len() == n / step,
    decreases n,
{
    links::lemma_every_len(list, step, n);
    if n % step == 0 {
        vstd::arithmetic::div_mod::lemma_fundamental_div_mod(n, step);
        let q = n / step;
        assert(n + step - 1 == q * step + (step - 1)) by (nonlinear_arith)
            requires
                n == step * q,
        ;
        vstd::arithmetic::div_mod::lemma_fundamental_div_mod_converse(
            n + step - 1,
            step,
            q,
            step - 1,
        );
    }
}

/// Every feature that is found again is followed, in order, from where it was to where it
/// is found: looked for where the shift of the frame takes it.
pub proof fn law_found_features_are_followed<V: Vision>(
    vision: &V,
    i: int,
    features: Seq<Point>,
    shift: Point,
    n: int,
)
    requires
        0 <= n < features.len(),
    ensures
        ({
            let p = features[n];
            let (before, after) = (
                links::followed(vision, i, features, shift, n),
                links::followed(vision, i, features, shift, n + 1),
            );
            match vision.found(i, p, [p[0] + shift[0], p[1] + shift[1]]) {
                Some(q) => after == before.push((p, q)),
                None => after == before,
            }
        }),
{
}

/// The far edge of a quad is the x of a corner, with its sign, and no corner is farther
/// from the anchor, on either side.
pub proof fn law_far_edge_is_the_farthest(q: Quad, k: int)
    requires
        0 <= k < 4,
        forall|i: int| 0 <= i < 4 ==> (#[trigger] q[i])[0].finite(),
    ensures
        rounding::size(rounding::real_of(q[k][0])) <= rounding::size(
            rounding::real_of(loop_closure::far_edge(q)),
        ),
        loop_closure::far_edge(q) == q[0][0] || loop_closure::far_edge(q) == q[1][0]
            || loop_closure::far_edge(q) == q[2][0] || loop_closure::far_edge(q) == q[3][0]
            || rounding::real_of(loop_closure::far_edge(q)) == 0real,
{
    rounding::lemma_constants();
    assert(q[0][0].finite() && q[1][0].finite() && q[2][0].finite() && q[3][0].finite());
    let zero = Double { bits: 0 };
    let a = loop_closure::farther(zero, q[0][0]);
    let b = loop_closure::farther(a, q[1][0]);
    let c = loop_closure::farther(b, q[2][0]);
    lemma_farther(zero, q[0][0]);
    lemma_farther(a, q[1][0]);
    lemma_farther(b, q[2][0]);
    lemma_farther(c, q[3][0]);
}

proof fn lemma_farther(a: Double, b: Double)
    requires
        a.finite(),
        b.finite(),
    ensures
        ({
            let f = loop_closure::farther(a, b);
            &&& f.finite()
            &&& f == a || f == b
            &&& rounding::size(rounding::real_of(a)) <= rounding::size(rounding::real_of(f))
            &&& rounding::size(rounding::real_of(b)) <= rounding::size(rounding::real_of(f))
        }),
{
    rounding::lemma_absolute(a);
    rounding::lemma_absolute(b);
    rounding::lemma_order(double::absolute(a), double::absolute(b));
}

} // verus!
