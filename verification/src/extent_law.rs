//! What laying out a picture of the wall promises: all that is shown fits, at its own
//! scale.
use vstd::arithmetic::power2;
use vstd::prelude::*;

use crate::chain;
use crate::closure;
use crate::closure::Quad;
use crate::detect::DetectedMarker;
use crate::double;
use crate::double::Double;
use crate::edge::Point;
use crate::fit_error;
use crate::homography;
use crate::homography::Estimate;
use crate::linalg;
use crate::linalg::Mat3;
use crate::rectify;
use crate::rectify::JointFit;
use crate::render;
use crate::render::{Extent, Window};
use crate::rounding;
use crate::significand;
use crate::sorting;

verus! {

/// Where corner `k` of frame `i` is on the wall.
pub open spec fn shown_at(chain: Seq<Mat3>, corners: Quad, i: int, k: int) -> Option<
    (Double, Double),
> {
    homography::image_of(
        linalg::adjugate_inverse(chain[i]),
        corners[k][0],
        corners[k][1],
    )
}

/// A position along one axis lies between two bounds, if it is a number and within the
/// limit.
pub open spec fn is_between(lo: Double, v: Double, hi: Double, limit: Double) -> bool {
    limit.opposite().at_most(v) && v.at_most(limit) ==> lo.at_most(v) && v.at_most(hi)
}

/// An extent holds a position within the limit.
pub open spec fn holds(e: Extent, p: Option<(Double, Double)>, limit: Double) -> bool {
    p matches Some(q) ==> is_between(e.min_x, q.0, e.max_x, limit) && is_between(
        e.min_y,
        q.1,
        e.max_y,
        limit,
    )
}

/// The bounds of an extent are numbers, infinite ones too.
spec fn has_bounds(e: Extent) -> bool {
    !e.min_x.nan() && !e.min_y.nan() && !e.max_x.nan() && !e.max_y.nan()
}

proof fn lemma_extended(e: Extent, p: Option<(Double, Double)>, limit: Double)
    requires
        has_bounds(e),
        limit.finite(),
    ensures
        has_bounds(render::extended(e, p, limit)),
        holds(render::extended(e, p, limit), p, limit),
        forall|q: Option<(Double, Double)>| #[trigger]
            holds(e, q, limit) ==> holds(render::extended(e, p, limit), q, limit),
{
}

proof fn lemma_extended_by_frame(e: Extent, inv: Mat3, corners: Quad, limit: Double)
    requires
        has_bounds(e),
        limit.finite(),
    ensures
        has_bounds(render::extended_by_frame(e, inv, corners, limit)),
        forall|k: int|
            0 <= k < 4 ==> holds(
                render::extended_by_frame(e, inv, corners, limit),
                #[trigger] homography::image_of(inv, corners[k][0], corners[k][1]),
                limit,
            ),
        forall|q: Option<(Double, Double)>| #[trigger]
            holds(e, q, limit) ==> holds(
                render::extended_by_frame(e, inv, corners, limit),
                q,
                limit,
            ),
{
    let p0 = homography::image_of(inv, corners[0][0], corners[0][1]);
    let p1 = homography::image_of(inv, corners[1][0], corners[1][1]);
    let p2 = homography::image_of(inv, corners[2][0], corners[2][1]);
    let p3 = homography::image_of(inv, corners[3][0], corners[3][1]);
    let e0 = render::extended(e, p0, limit);
    let e1 = render::extended(e0, p1, limit);
    let e2 = render::extended(e1, p2, limit);
    lemma_extended(e, p0, limit);
    lemma_extended(e0, p1, limit);
    lemma_extended(e1, p2, limit);
    lemma_extended(e2, p3, limit);
    let e3 = render::extended(e2, p3, limit);
    assert(holds(e1, p0, limit) && holds(e2, p0, limit) && holds(e3, p0, limit));
    assert(holds(e2, p1, limit) && holds(e3, p1, limit));
    assert(holds(e3, p2, limit));
    assert forall|q: Option<(Double, Double)>| #[trigger] holds(e, q, limit) implies holds(
        e3,
        q,
        limit,
    ) by {
        assert(holds(e0, q, limit) && holds(e1, q, limit) && holds(e2, q, limit));
    }
    assert forall|k: int| 0 <= k < 4 implies holds(
        e3,
        #[trigger] homography::image_of(inv, corners[k][0], corners[k][1]),
        limit,
    ) by {
        if k == 0 {
        } else if k == 1 {
        } else if k == 2 {
        } else {
            assert(k == 3);
        }
    }
}

proof fn lemma_covered(chain: Seq<Mat3>, corners: Quad, limit: Double, n: int)
    requires
        0 <= n <= chain.len(),
        limit.finite(),
    ensures
        has_bounds(render::covered(chain, corners, limit, n)),
        forall|i: int, k: int|
            0 <= i < n && 0 <= k < 4 ==> holds(
                render::covered(chain, corners, limit, n),
                #[trigger] shown_at(chain, corners, i, k),
                limit,
            ),
    decreases n,
{
    if n > 0 {
        lemma_covered(chain, corners, limit, n - 1);
        let before = render::covered(chain, corners, limit, n - 1);
        let inv = linalg::adjugate_inverse(chain[n - 1]);
        lemma_extended_by_frame(before, inv, corners, limit);
        let after = render::covered(chain, corners, limit, n);
        assert forall|i: int, k: int| 0 <= i < n && 0 <= k < 4 implies holds(
            after,
            #[trigger] shown_at(chain, corners, i, k),
            limit,
        ) by {
            if i < n - 1 {
                assert(holds(before, shown_at(chain, corners, i, k), limit));
            }
        }
    }
}

/// The extent of a wall holds every corner of every frame, unless a corner is beyond the
/// limit or at infinity.
pub proof fn law_extent_holds_every_frame(
    chain: Seq<Mat3>,
    corners: Quad,
    limit: Double,
    e: Extent,
    i: int,
    k: int,
)
    requires
        limit.finite(),
        render::extent_of(chain, corners, limit) == Some(e),
        0 <= i < chain.len(),
        0 <= k < 4,
    ensures
        holds(e, shown_at(chain, corners, i, k), limit),
{
    lemma_covered(chain, corners, limit, chain.len() as int);
    assert(holds(e, shown_at(chain, corners, i, k), limit));
}

/// One coordinate of a corner of the first `n` frames, kept within the limit, is `v`.
pub open spec fn is_reached(
    chain: Seq<Mat3>,
    corners: Quad,
    limit: Double,
    n: int,
    upright: bool,
    v: Double,
) -> bool {
    exists|i: int, k: int|
        0 <= i < n && 0 <= k < 4 && (#[trigger] shown_at(chain, corners, i, k) matches Some(p)
            && v == closure::clamped(
            if upright {
                p.1
            } else {
                p.0
            },
            limit.opposite(),
            limit,
        ))
}

/// Every bound of an extent that is not the empty one's is reached.
spec fn is_tight(chain: Seq<Mat3>, corners: Quad, limit: Double, n: int, e: Extent) -> bool {
    let none = render::no_extent();
    &&& e.min_x == none.min_x || is_reached(chain, corners, limit, n, false, e.min_x)
    &&& e.max_x == none.max_x || is_reached(chain, corners, limit, n, false, e.max_x)
    &&& e.min_y == none.min_y || is_reached(chain, corners, limit, n, true, e.min_y)
    &&& e.max_y == none.max_y || is_reached(chain, corners, limit, n, true, e.max_y)
}

proof fn lemma_tight_step(
    chain: Seq<Mat3>,
    corners: Quad,
    limit: Double,
    n: int,
    e: Extent,
    i: int,
    k: int,
)
    requires
        is_tight(chain, corners, limit, n, e),
        0 <= i < n,
        0 <= k < 4,
    ensures
        is_tight(
            chain,
            corners,
            limit,
            n,
            render::extended(e, shown_at(chain, corners, i, k), limit),
        ),
{
    let p = shown_at(chain, corners, i, k);
    if p is Some {
        let cx = closure::clamped((p->0).0, limit.opposite(), limit);
        let cy = closure::clamped((p->0).1, limit.opposite(), limit);
        assert(is_reached(chain, corners, limit, n, false, cx));
        assert(is_reached(chain, corners, limit, n, true, cy));
    }
}

proof fn lemma_reached_later(
    chain: Seq<Mat3>,
    corners: Quad,
    limit: Double,
    n: int,
    upright: bool,
    v: Double,
)
    requires
        is_reached(chain, corners, limit, n, upright, v),
    ensures
        is_reached(chain, corners, limit, n + 1, upright, v),
{
    let (i, k) = choose|i: int, k: int|
        0 <= i < n && 0 <= k < 4 && (#[trigger] shown_at(chain, corners, i, k) matches Some(p)
            && v == closure::clamped(
            if upright {
                p.1
            } else {
                p.0
            },
            limit.opposite(),
            limit,
        ));
    assert(shown_at(chain, corners, i, k) is Some);
}

proof fn lemma_tight(chain: Seq<Mat3>, corners: Quad, limit: Double, n: int)
    requires
        0 <= n <= chain.len(),
    ensures
        is_tight(chain, corners, limit, n, render::covered(chain, corners, limit, n)),
    decreases n,
{
    if n > 0 {
        lemma_tight(chain, corners, limit, n - 1);
        let e = render::covered(chain, corners, limit, n - 1);
        if is_reached(chain, corners, limit, n - 1, false, e.min_x) {
            lemma_reached_later(chain, corners, limit, n - 1, false, e.min_x);
        }
        if is_reached(chain, corners, limit, n - 1, false, e.max_x) {
            lemma_reached_later(chain, corners, limit, n - 1, false, e.max_x);
        }
        if is_reached(chain, corners, limit, n - 1, true, e.min_y) {
            lemma_reached_later(chain, corners, limit, n - 1, true, e.min_y);
        }
        if is_reached(chain, corners, limit, n - 1, true, e.max_y) {
            lemma_reached_later(chain, corners, limit, n - 1, true, e.max_y);
        }
        let e0 = render::extended(e, shown_at(chain, corners, n - 1, 0), limit);
        let e1 = render::extended(e0, shown_at(chain, corners, n - 1, 1), limit);
        let e2 = render::extended(e1, shown_at(chain, corners, n - 1, 2), limit);
        lemma_tight_step(chain, corners, limit, n, e, n - 1, 0);
        lemma_tight_step(chain, corners, limit, n, e0, n - 1, 1);
        lemma_tight_step(chain, corners, limit, n, e1, n - 1, 2);
        lemma_tight_step(chain, corners, limit, n, e2, n - 1, 3);
    }
}

/// The extent of a wall is no larger than the frames ask for: each bound is the coordinate
/// of a corner, kept within the limit.
pub proof fn law_extent_is_tight(chain: Seq<Mat3>, corners: Quad, limit: Double, e: Extent)
    requires
        render::extent_of(chain, corners, limit) == Some(e),
    ensures
        ({
            let n = chain.len() as int;
            &&& is_reached(chain, corners, limit, n, false, e.min_x)
            &&& is_reached(chain, corners, limit, n, true, e.min_y)
            &&& is_reached(chain, corners, limit, n, false, e.max_x)
            &&& is_reached(chain, corners, limit, n, true, e.max_y)
        }),
{
    lemma_tight(chain, corners, limit, chain.len() as int);
    let (inf, neg) = (
        Double { bits: 0x7ff0_0000_0000_0000 },
        Double { bits: 0xfff0_0000_0000_0000 },
    );
    double::lemma_opposite_value(inf);
    crate::magnitude::lemma_units_increase(e.min_x.magnitude(), inf.magnitude());
    crate::magnitude::lemma_units_increase(e.min_y.magnitude(), inf.magnitude());
    crate::magnitude::lemma_units_nonnegative(e.min_x.magnitude());
    crate::magnitude::lemma_units_nonnegative(e.min_y.magnitude());
}

/// The marker that the wall is measured from has its first corner at the origin, its top
/// side along x and its left side along y, each as long as the marker.
pub proof fn law_anchor_lies_at_the_origin(side: Double)
    ensures
        ({
            let q = closure::square_of(side);
            let zero = Double { bits: 0 };
            &&& q[0] == [zero, zero]
            &&& q[1] == [side, zero]
            &&& q[2] == [side, side]
            &&& q[3] == [zero, side]
            &&& rounding::real_of(zero) == 0real
        }),
{
    rounding::lemma_constants();
}

/// The true side of a marker is 150 mm times the print-scale factor.
pub proof fn law_print_scale_stretches_the_marker(factor: Double)
    requires
        factor.finite(),
        0real < rounding::real_of(factor) <= 1000real,
    ensures
        ({
            let side = Double { bits: rectify::MARKER_SIDE } * factor;
            side.finite() && rounding::within(
                rounding::real_of(side),
                150real * rounding::real_of(factor),
                1real / 1000000real,
            )
        }),
{
    power2::lemma2_to64();
    power2::lemma2_to64_rest();
    rounding::lemma_scales();
    let s = Double { bits: rectify::MARKER_SIDE };
    significand::lemma_bits_are(s, 45, 0x2000_0000_0000, 0x12_c000_0000_0000);
    let (x, y) = (rounding::real_of(s), rounding::real_of(factor));
    assert(x * y == 150real * y) by (nonlinear_arith)
        requires
            x == 150real,
    ;
    rounding::lemma_product(s, factor);
    rounding::lemma_units_are_small();
    let u = rounding::unit();
    let z = 150real * y;
    assert(u * z <= u * 150000real) by (nonlinear_arith)
        requires
            z <= 150000real,
            u > 0real,
    ;
}

/// Markers are ordered by ID, whichever order they were detected in: none is lost and none
/// is added.
pub proof fn law_markers_are_ordered_by_id(markers: Seq<DetectedMarker>)
    ensures
        rectify::by_id(markers).len() == markers.len(),
        rectify::by_id(markers).to_multiset() == markers.to_multiset(),
        forall|i: int, j: int|
            0 <= i < j < markers.len() ==> (#[trigger] rectify::by_id(markers)[i]).id <= (
            #[trigger] rectify::by_id(markers)[j]).id,
{
    let items = rectify::keyed(markers);
    sorting::law_sorted(items);
    assert forall|i: int| 0 <= i < items.len() implies !(#[trigger] items[i]).0.nan() by {
        double::lemma_whole(markers[i].id as int);
    }
    let s = sorting::sorted(items);
    assert forall|i: int| 0 <= i < s.len() implies (#[trigger] s[i]).0 == double::whole(
        s[i].1.id as int,
    ) by {
        vstd::seq_lib::to_multiset_contains(s, s[i]);
        vstd::seq_lib::to_multiset_contains(items, s[i]);
        assert(s.contains(s[i]));
        assert(items.contains(s[i]));
        let k = choose|k: int| 0 <= k < items.len() && items[k] == s[i];
        assert(items[k].0 == double::whole(markers[k].id as int));
    }
    assert forall|i: int, j: int| 0 <= i < j < markers.len() implies (
    #[trigger] rectify::by_id(markers)[i]).id <= (#[trigger] rectify::by_id(markers)[j]).id by {
        assert(!s[j].0.less(s[i].0));
        let (a, b) = (s[i].1.id as int, s[j].1.id as int);
        double::lemma_whole(a);
        double::lemma_whole(b);
        rounding::lemma_whole_real(double::whole(a), a);
        rounding::lemma_whole_real(double::whole(b), b);
        rounding::lemma_order(double::whole(b), double::whole(a));
    }
    let f = |p: (Double, DetectedMarker)| p.1;
    lemma_mapped(s, items, f);
    assert(items.map_values(f) =~= markers);
    assert(s.map_values(f) == rectify::by_id(markers));
}

/// Equal multisets stay equal when every item is mapped.
proof fn lemma_mapped<A, B>(s: Seq<A>, t: Seq<A>, f: spec_fn(A) -> B)
    requires
        s.to_multiset() == t.to_multiset(),
    ensures
        s.map_values(f).to_multiset() == t.map_values(f).to_multiset(),
    decreases s.len(),
{
    broadcast use vstd::seq_lib::group_to_multiset_ensures;

    if s.len() == 0 {
        assert(s.to_multiset().len() == 0 && t.to_multiset().len() == t.len());
        assert(s.map_values(f) =~= t.map_values(f));
    } else {
        let x = s.last();
        vstd::seq_lib::to_multiset_contains(s, x);
        assert(s.contains(x));
        vstd::seq_lib::to_multiset_contains(t, x);
        let k = choose|k: int| 0 <= k < t.len() && t[k] == x;
        let (a, b) = (s.drop_last(), t.remove(k));
        assert(s =~= a.push(x));
        vstd::seq_lib::to_multiset_remove(t, k);
        assert(a.to_multiset().insert(x) =~= s.to_multiset());
        assert(a.to_multiset() =~= b.to_multiset());
        lemma_mapped(a, b, f);
        assert(s.map_values(f) =~= a.map_values(f).push(f(x)));
        assert(t.map_values(f).remove(k) =~= b.map_values(f));
        vstd::seq_lib::to_multiset_remove(t.map_values(f), k);
        assert(t.map_values(f)[k] == f(x));
    }
}

/// A joint fit that settles on an estimate has at least six of the eight corners as
/// inliers, and fits no worse than the one it started from.
pub proof fn law_joint_fit_is_consistent<T: Fn(Double, Double) -> (Double, Double)>(
    turn: &T,
    side: Double,
    anchor: Quad,
    second: Quad,
    current: Mat3,
    best: Option<Estimate<Mat3>>,
    rounds: nat,
    out: JointFit,
)
    requires
        rectify::is_joint_fit(turn, side, anchor, second, current, best, rounds, out),
        best matches Some(b) ==> b.inliers >= 6,
    ensures
        out matches JointFit::Settled(Some(j)) ==> j.inliers >= 6 && (best matches Some(b)
            ==> b.rms.nan() || j.rms.at_most(b.rms)),
        best is Some ==> !(out matches JointFit::Settled(None)),
    decreases rounds,
{
    if rounds > 0 {
        if let Some(inv) = linalg::inverse_of(current) {
            if let rectify::Projection::Near(q) = rectify::projection_from(inv, second, 0) {
                let posed = closure::posed(turn, closure::square_of(side), q);
                let est = choose|est: Option<Estimate<Mat3>>|
                    {
                        &&& #[trigger] rectify::is_joint_estimate(side, posed, anchor, second, est)
                        &&& match est {
                            None => out == JointFit::Settled(best),
                            Some(e) => if e.inliers < 6 {
                                out == JointFit::Settled(best)
                            } else {
                                let better = rectify::is_better(best, e);
                                let next = if better {
                                    Some(e)
                                } else {
                                    best
                                };
                                if rectify::is_settled(best, e) {
                                    out == JointFit::Settled(next)
                                } else {
                                    rectify::is_joint_fit(
                                        turn,
                                        side,
                                        anchor,
                                        second,
                                        if better {
                                            e.h
                                        } else {
                                            current
                                        },
                                        next,
                                        (rounds - 1) as nat,
                                        out,
                                    )
                                }
                            },
                        }
                    };
                if let Some(e) = est {
                    if e.inliers >= 6 && !rectify::is_settled(best, e) {
                        let better = rectify::is_better(best, e);
                        let next = if better {
                            Some(e)
                        } else {
                            best
                        };
                        law_joint_fit_is_consistent(
                            turn,
                            side,
                            anchor,
                            second,
                            if better {
                                e.h
                            } else {
                                current
                            },
                            next,
                            (rounds - 1) as nat,
                            out,
                        );
                    }
                }
            }
        }
    }
}

/// A quotient of ordinary numbers, rounded.
proof fn lemma_ratio_of(a: Double, b: Double)
    requires
        a.finite(),
        b.finite(),
        0real <= rounding::real_of(a) <= 1000000000real,
        1real / 1000000real <= rounding::real_of(b) <= 1000000000real,
    ensures
        a.per(b).finite(),
        rounding::real_of(a.per(b)) >= -1real / 1000000000real,
        rounding::within(
            rounding::real_of(a.per(b)) * rounding::real_of(b),
            rounding::real_of(a),
            rounding::real_of(a) / 1000000000real + 1real / 1000000000real,
        ),
{
    rounding::lemma_scales();
    rounding::lemma_units_are_small();
    let (x, y) = (rounding::real_of(a), rounding::real_of(b));
    rounding::lemma_ratio(x, y);
    let q = x / y;
    assert(0real <= q && q <= 1000000real * x) by (nonlinear_arith)
        requires
            q * y == x,
            x >= 0real,
            1000000real * y >= 1real,
    ;
    rounding::lemma_quotient(a, b);
    let (u, t) = (rounding::unit(), rounding::tiny());
    let e = rounding::real_of(a.per(b)) - q;
    assert(0real <= u * q && 1000000000000real * (u * q) <= q) by (nonlinear_arith)
        requires
            0real <= q,
            u * 4503599627370496real == 1real,
            u > 0real,
    ;
    fit_error::lemma_size_product(e, y);
    let se = rounding::size(e);
    let m = q / 1000000000000real + t;
    fit_error::lemma_scale_both(se, m, y);
    assert(m * y == x / 1000000000000real + t * y) by (nonlinear_arith)
        requires
            m == q / 1000000000000real + t,
            q * y == x,
    ;
    assert(t * y <= t * 1000000000real) by (nonlinear_arith)
        requires
            y <= 1000000000real,
            t > 0real,
    ;
    assert((q + e) * y == x + e * y) by (nonlinear_arith)
        requires
            q * y == x,
    ;
}

proof fn lemma_half_below(k: int)
    requires
        0 < k <= 0x1_0000,
    ensures
        render::half_below(k).finite(),
        rounding::within(
            rounding::real_of(render::half_below(k)),
            k as real - 1real / 2real,
            1real / 1000000real,
        ),
{
    power2::lemma2_to64();
    power2::lemma2_to64_rest();
    rounding::lemma_scales();
    rounding::lemma_units_are_small();
    let half = Double { bits: render::ONE_HALF };
    significand::lemma_bits_are(half, 53, 0x20_0000_0000_0000, 0x10_0000_0000_0000);
    double::lemma_whole(k);
    rounding::lemma_whole_real(double::whole(k), k);
    rounding::lemma_difference(double::whole(k), half);
    let u = rounding::unit();
    let z = k as real - 1real / 2real;
    assert(u * z <= u * 65536real) by (nonlinear_arith)
        requires
            z <= 65536real,
            u > 0real,
    ;
}

/// An output side has as many pixels as the wall it shows is long, at the scale of the
/// output, to half a pixel: unless that is fewer than eight or more than allowed.
pub proof fn law_output_side_is_to_scale(mm: Double, mm_per_px: Double, max: int, n: int)
    requires
        render::is_output_side(mm, mm_per_px, max, n),
        8 <= max < 0x1_0000,
        mm.finite(),
        mm_per_px.finite(),
        0real <= rounding::real_of(mm) <= 1000000000real,
        1real / 1000000real <= rounding::real_of(mm_per_px) <= 1000000000real,
    ensures
        8 <= n <= max,
        n < max ==> rounding::real_of(mm) <= (n as real + 501real / 1000real) * rounding::real_of(
            mm_per_px,
        ) + 1real / 1000000real,
        n > 8 ==> rounding::real_of(mm) >= (n as real - 501real / 1000real) * rounding::real_of(
            mm_per_px,
        ) - 1real / 1000000real,
{
    let q = mm.per(mm_per_px);
    lemma_ratio_of(mm, mm_per_px);
    let (x, y, v) = (rounding::real_of(mm), rounding::real_of(mm_per_px), rounding::real_of(q));
    if n < max {
        lemma_half_below(n + 1);
        rounding::lemma_order(q, render::half_below(n + 1));
        let m = n as real + 5001real / 10000real;
        fit_error::lemma_scale_both(v, m, y);
        let (w, my) = (n as real + 501real / 1000real, m * y);
        assert(w * y >= my + my / 1000000000real) by (nonlinear_arith)
            requires
                my == m * y,
                w == m + 9real / 10000real,
                0real <= m <= 70000real,
                y >= 0real,
        ;
    }
    if n > 8 {
        lemma_half_below(n);
        assert(render::half_below(n).at_most(q));
        rounding::lemma_order(q, render::half_below(n));
        let m = n as real - 5001real / 10000real;
        fit_error::lemma_scale_both(m, v, y);
        let (w, my) = (n as real - 501real / 1000real, m * y);
        let d = 9real / 10000real;
        assert(w * y == my - d * y) by (nonlinear_arith)
            requires
                my == m * y,
                w == m - d,
        ;
        if x < w * y - 1real / 1000000real {
            assert(w * y <= 70000real * y) by (nonlinear_arith)
                requires
                    w <= 70000real,
                    y >= 0real,
            ;
        }
    }
}

/// The scale of an output: no finer than the marker's own detail in the frame, coarse
/// enough for both sides to fit, and no coarser than one of the three asks for.
pub proof fn law_scale_is_the_finest_that_fits(
    e: Extent,
    side_mm: Double,
    side_px: Double,
    max_w: int,
    max_h: int,
)
    requires
        1 <= max_w < 0x1_0000,
        1 <= max_h < 0x1_0000,
        side_mm.finite(),
        side_px.finite(),
        0real < rounding::real_of(side_mm) <= 1000000real,
        0real <= rounding::real_of(side_px) <= 1000000real,
        is_box(e),
    ensures
        ({
            let scale = render::resolution(e, side_mm, side_px, max_w, max_h);
            let s = rounding::real_of(scale);
            let (w, h) = (
                rounding::real_of(e.max_x) - rounding::real_of(e.min_x),
                rounding::real_of(e.max_y) - rounding::real_of(e.min_y),
            );
            let px = if rounding::real_of(side_px) < 1real {
                1real
            } else {
                rounding::real_of(side_px)
            };
            let mm = rounding::real_of(side_mm);
            &&& scale.finite()
            &&& s * (max_w as real) >= w - 1real / 100real
            &&& s * (max_h as real) >= h - 1real / 100real
            &&& s * px >= mm - 1real / 100real
            &&& s * (max_w as real) <= w + 1real / 100real || s * (max_h as real) <= h + 1real
                / 100real || s * px <= mm + 1real / 100real
        }),
{
    rounding::lemma_constants();
    rounding::lemma_scales();
    let one = Double { bits: render::ONE };
    rounding::lemma_order(side_px, one);
    let px = double::larger(side_px, one);
    lemma_side(e.min_x, e.max_x);
    lemma_side(e.min_y, e.max_y);
    double::lemma_whole(max_w);
    double::lemma_whole(max_h);
    rounding::lemma_whole_real(double::whole(max_w), max_w);
    rounding::lemma_whole_real(double::whole(max_h), max_h);
    lemma_ratio_of(side_mm, px);
    lemma_ratio_of(e.max_x - e.min_x, double::whole(max_w));
    lemma_ratio_of(e.max_y - e.min_y, double::whole(max_h));
    let a = side_mm.per(px);
    let b = (e.max_x - e.min_x).per(double::whole(max_w));
    let c = (e.max_y - e.min_y).per(double::whole(max_h));
    let ab = double::larger(a, b);
    rounding::lemma_order(a, b);
    rounding::lemma_order(ab, c);
    let s = rounding::real_of(render::resolution(e, side_mm, side_px, max_w, max_h));
    fit_error::lemma_scale_both(rounding::real_of(a), s, rounding::real_of(px));
    fit_error::lemma_scale_both(rounding::real_of(b), s, max_w as real);
    fit_error::lemma_scale_both(rounding::real_of(c), s, max_h as real);
}

/// A rectangle on a wall: its bounds are in order, and no farther than 10 km away.
pub open spec fn is_box(e: Extent) -> bool {
    is_span(e.min_x, e.max_x) && is_span(e.min_y, e.max_y)
}

/// Two bounds in order.
pub open spec fn is_span(lo: Double, hi: Double) -> bool {
    &&& lo.finite() && rounding::size(rounding::real_of(lo)) <= 1000000real
    &&& hi.finite() && rounding::size(rounding::real_of(hi)) <= 1000000real
    &&& rounding::real_of(lo) <= rounding::real_of(hi)
}

proof fn lemma_side(lo: Double, hi: Double)
    requires
        is_span(lo, hi),
    ensures
        (hi - lo).finite(),
        0real <= rounding::real_of(hi - lo) <= 3000000real,
        rounding::within(
            rounding::real_of(hi - lo),
            rounding::real_of(hi) - rounding::real_of(lo),
            1real / 1000000real,
        ),
{
    rounding::lemma_scales();
    rounding::lemma_units_are_small();
    rounding::lemma_difference(hi, lo);
    let u = rounding::unit();
    let z = rounding::real_of(hi) - rounding::real_of(lo);
    assert(u * z <= u * 2000000real && u * z <= z) by (nonlinear_arith)
        requires
            0real <= z <= 2000000real,
            0real < u < 1real,
    ;
}

/// The square of a rounded difference.
pub proof fn lemma_square(a: Double, b: Double)
    requires
        is_place(a),
        is_place(b),
    ensures
        ({
            let d = rounding::real_of(a - b);
            let x = rounding::real_of(a) - rounding::real_of(b);
            &&& (a - b).finite()
            &&& rounding::size(d) <= 3000000real
            &&& 0real <= x * x
            &&& 0real <= d * d
            &&& rounding::within(d * d, x * x, x * x / 1000000000real)
        }),
{
    rounding::lemma_scales();
    rounding::lemma_units_are_small();
    rounding::lemma_difference(a, b);
    let u = rounding::unit();
    let d = rounding::real_of(a - b);
    let x = rounding::real_of(a) - rounding::real_of(b);
    let s = rounding::size(x);
    let m = s / 10000000000real;
    assert(u * s <= m && 0real <= u * s) by (nonlinear_arith)
        requires
            m == s / 10000000000real,
            0real <= s,
            u * 4503599627370496real == 1real,
            u > 0real,
    ;
    let e = d - x;
    fit_error::lemma_size_product(x, x);
    fit_error::lemma_product_bound(e, x, m, s);
    fit_error::lemma_product_bound(e, e, m, m);
    let (q, ex, ee) = (s * s, e * x, e * e);
    assert(d * d == x * x + 2real * ex + ee) by (nonlinear_arith)
        requires
            d == x + e,
            ex == e * x,
            ee == e * e,
    ;
    assert(m * s == q / 10000000000real && m * m <= q / 10000000000real && q >= 0real)
        by (nonlinear_arith)
        requires
            m == s / 10000000000real,
            q == s * s,
            s >= 0real,
    ;
    assert(x * x >= 0real && d * d >= 0real) by (nonlinear_arith);
}

/// A position on a wall or in a frame.
pub open spec fn is_place(v: Double) -> bool {
    v.finite() && rounding::size(rounding::real_of(v)) <= 1000000real
}

/// The distance of two positions is the Euclidean one: its square is the sum of the
/// squares of what they differ by along each axis, whichever way.
pub proof fn law_distance_is_euclidean(p: Point, q: Point)
    requires
        is_place(p[0]),
        is_place(p[1]),
        is_place(q[0]),
        is_place(q[1]),
    ensures
        ({
            let g = chain::gap(p, q);
            let x = rounding::real_of(p[0]) - rounding::real_of(q[0]);
            let y = rounding::real_of(p[1]) - rounding::real_of(q[1]);
            &&& g.finite()
            &&& rounding::real_of(g) >= 0real
            &&& rounding::within(
                rounding::real_of(g) * rounding::real_of(g),
                x * x + y * y,
                (x * x + y * y) / 100000000real + 1real / 100000000real,
            )
        }),
{
    lemma_square(p[0], q[0]);
    lemma_square(p[1], q[1]);
    rounding::lemma_units_are_small();
    let (dx, dy) = (p[0] - q[0], p[1] - q[1]);
    rounding::lemma_square_sum(dx, dy);
    let c = dx * dx + dy * dy;
    rounding::lemma_root(c);
    let u = rounding::unit();
    let (a, b) = (
        rounding::real_of(dx) * rounding::real_of(dx),
        rounding::real_of(dy) * rounding::real_of(dy),
    );
    let (s, r) = (a + b, rounding::real_of(c));
    assert(0real <= 3real * u * s && 3real * u * s <= s / 1000000000real) by (nonlinear_arith)
        requires
            0real <= s,
            u * 4503599627370496real == 1real,
            u > 0real,
    ;
    assert(0real <= 2real * u * r && 2real * u * r <= r / 1000000000real) by (nonlinear_arith)
        requires
            0real <= r,
            u * 4503599627370496real == 1real,
            u > 0real,
    ;
}

/// A box holds an output position.
pub open spec fn reaches(b: Extent, p: Option<(Double, Double)>, e: Extent, mm_per_px: Double) -> bool {
    p matches Some(q) ==> {
        let (x, y) = ((q.0 - e.min_x).per(mm_per_px), (q.1 - e.min_y).per(mm_per_px));
        &&& !x.nan() ==> b.min_x.at_most(x) && x.at_most(b.max_x)
        &&& !y.nan() ==> b.min_y.at_most(y) && y.at_most(b.max_y)
    }
}

proof fn lemma_reached(b: Extent, p: Option<(Double, Double)>, e: Extent, mm_per_px: Double)
    requires
        has_bounds(b),
    ensures
        has_bounds(render::reached(b, p, e, mm_per_px)),
        reaches(render::reached(b, p, e, mm_per_px), p, e, mm_per_px),
        forall|q: Option<(Double, Double)>| #[trigger]
            reaches(b, q, e, mm_per_px) ==> reaches(
                render::reached(b, p, e, mm_per_px),
                q,
                e,
                mm_per_px,
            ),
{
}

/// The footprint of a frame in an output holds all four corners of the frame.
pub proof fn law_footprint_holds_every_corner(
    inv: Mat3,
    corners: Quad,
    e: Extent,
    mm_per_px: Double,
    k: int,
)
    requires
        0 <= k < 4,
    ensures
        reaches(
            render::footprint(inv, corners, e, mm_per_px),
            homography::image_of(inv, corners[k][0], corners[k][1]),
            e,
            mm_per_px,
        ),
{
    let p0 = homography::image_of(inv, corners[0][0], corners[0][1]);
    let p1 = homography::image_of(inv, corners[1][0], corners[1][1]);
    let p2 = homography::image_of(inv, corners[2][0], corners[2][1]);
    let p3 = homography::image_of(inv, corners[3][0], corners[3][1]);
    let none = render::no_extent();
    let b0 = render::reached(none, p0, e, mm_per_px);
    let b1 = render::reached(b0, p1, e, mm_per_px);
    let b2 = render::reached(b1, p2, e, mm_per_px);
    let b3 = render::reached(b2, p3, e, mm_per_px);
    lemma_reached(none, p0, e, mm_per_px);
    lemma_reached(b0, p1, e, mm_per_px);
    lemma_reached(b1, p2, e, mm_per_px);
    lemma_reached(b2, p3, e, mm_per_px);
    assert(reaches(b1, p0, e, mm_per_px) && reaches(b2, p0, e, mm_per_px) && reaches(
        b3,
        p0,
        e,
        mm_per_px,
    ));
    assert(reaches(b2, p1, e, mm_per_px) && reaches(b3, p1, e, mm_per_px));
    assert(reaches(b3, p2, e, mm_per_px));
    assert(b3 == render::footprint(inv, corners, e, mm_per_px));
    if k == 0 {
    } else if k == 1 {
    } else if k == 2 {
    } else {
        assert(k == 3);
    }
}

/// A window holds every pixel of the output that lies in the footprint of its frame, and
/// none that is a whole pixel beyond it.
pub proof fn law_window_holds_the_footprint(
    h: Mat3,
    corners: Quad,
    e: Extent,
    mm_per_px: Double,
    out_w: int,
    out_h: int,
    w: Window,
    x: int,
    y: int,
)
    requires
        render::is_window(h, corners, e, mm_per_px, out_w, out_h, w),
        !linalg::is_singular(h),
        0 < out_w < 0x1000_0000,
        0 < out_h < 0x1000_0000,
        0 <= x < out_w,
        0 <= y < out_h,
    ensures
        ({
            let b = render::footprint(linalg::adjugate_inverse(h), corners, e, mm_per_px);
            let (u, v) = (double::whole(x), double::whole(y));
            &&& b.min_x.at_most(u) && u.at_most(b.max_x) && b.min_y.at_most(v) && v.at_most(
                b.max_y,
            ) ==> w.holds(x, y)
            &&& w.holds(x, y) ==> (x + 1 < out_w ==> !double::whole(x + 1).at_most(b.min_x))
                && (x > 0 ==> !b.max_x.at_most(double::whole(x - 1))) && (y + 1 < out_h
                ==> !double::whole(y + 1).at_most(b.min_y)) && (y > 0 ==> !b.max_y.at_most(
                double::whole(y - 1),
            ))
        }),
{
    let b = render::footprint(linalg::adjugate_inverse(h), corners, e, mm_per_px);
    lemma_floor(b.min_x, out_w, w.x0 as int, x);
    lemma_floor(b.min_y, out_h, w.y0 as int, y);
    lemma_ceiling(b.max_x, out_w - 1, w.x1 as int, x);
    lemma_ceiling(b.max_y, out_h - 1, w.y1 as int, y);
}

proof fn lemma_wholes(m: int, n: int)
    requires
        0 <= m < 0x1000_0001,
        0 <= n < 0x1000_0001,
    ensures
        !double::whole(m).nan(),
        !double::whole(n).nan(),
        double::whole(m).value() <= double::whole(n).value() <==> m <= n,
{
    double::lemma_whole(m);
    double::lemma_whole(n);
    rounding::lemma_whole_real(double::whole(m), m);
    rounding::lemma_whole_real(double::whole(n), n);
    rounding::lemma_order(double::whole(n), double::whole(m));
}

proof fn lemma_floor(d: Double, hi: int, n: int, x: int)
    requires
        render::is_floor(d, hi, n),
        0 <= x < hi < 0x1000_0000,
    ensures
        d.at_most(double::whole(x)) ==> n <= x,
        n <= x && x + 1 < hi ==> !double::whole(x + 1).at_most(d),
{
    if d.at_most(double::whole(x)) && n > x {
        assert(double::whole(n).at_most(d));
        lemma_wholes(n, x);
    }
    if n <= x && x + 1 < hi && double::whole(x + 1).at_most(d) {
        lemma_wholes(n + 1, x + 1);
        assert(!double::whole(n + 1).at_most(d));
    }
}

proof fn lemma_ceiling(d: Double, hi: int, n: int, x: int)
    requires
        render::is_ceiling(d, hi, n),
        0 <= x <= hi < 0x1000_0000,
    ensures
        double::whole(x).at_most(d) ==> x <= n,
        x <= n && x > 0 ==> !d.at_most(double::whole(x - 1)),
{
    if double::whole(x).at_most(d) && x > n {
        lemma_wholes(x, n);
        assert(d.at_most(double::whole(n)));
    }
    if x <= n && x > 0 {
        assert(!d.at_most(double::whole(x - 1)));
    }
}

} // verus!
