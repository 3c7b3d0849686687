//! What closing the loop promises: the best views decide, and only drift that a chain can
//! have is corrected.
use vstd::arithmetic::power2;
use vstd::prelude::*;

use crate::chain;
use crate::closure;
use crate::closure::{Drift, Quad};
use crate::detect;
use crate::detect::DetectedMarker;
use crate::double;
use crate::double::Double;
use crate::edge::Point;
use crate::links;
use crate::marker;
use crate::ordinary;
use crate::rounding;
use crate::significand;

verus! {

/// Every score is a number.
pub open spec fn are_numbers(scores: Seq<Option<Double>>) -> bool {
    forall|i: int|
        0 <= i < scores.len() ==> (#[trigger] scores[i] matches Some(v) ==> !v.nan())
}

/// The entry that is chosen has a score, none scores higher, and a later one would have
/// been chosen if it scored as high. None is chosen if and only if none has a score.
pub proof fn law_best_score_is_the_highest(scores: Seq<Option<Double>>, n: int)
    requires
        0 <= n <= scores.len(),
        are_numbers(scores),
    ensures
        closure::best_scored(scores, n) is None <==> forall|i: int|
            0 <= i < n ==> (#[trigger] scores[i]) is None,
        closure::best_scored(scores, n) matches Some(b) ==> {
            &&& 0 <= b < n
            &&& scores[b] is Some
            &&& forall|i: int|
                0 <= i < n && (#[trigger] scores[i]) is Some ==> scores[i]->0.value()
                    <= scores[b]->0.value()
            &&& forall|i: int|
                b < i < n && (#[trigger] scores[i]) is Some ==> scores[i]->0.value()
                    < scores[b]->0.value()
        },
    decreases n,
{
    if n > 0 {
        law_best_score_is_the_highest(scores, n - 1);
        assert(scores[n - 1] matches Some(v) ==> !v.nan());
        if let Some(b) = closure::best_scored(scores, n - 1) {
            assert(scores[b] matches Some(v) ==> !v.nan());
        }
    }
}

/// The chain is anchored at the keyframe that shows Marker A largest.
pub proof fn law_anchor_is_the_largest_view(
    detections: Seq<Vec<DetectedMarker>>,
    ka: int,
    i: int,
)
    requires
        are_numbers(closure::areas_of(detections, marker::LEFT_MARKER_ID)),
        closure::anchor_of(detections) == Some(ka),
        0 <= i < detections.len(),
        links::corners_of(detections[i]@, marker::LEFT_MARKER_ID) is Some,
    ensures
        0 <= ka < detections.len(),
        links::corners_of(detections[ka]@, marker::LEFT_MARKER_ID) is Some,
        detect::area_of(links::corners_of(detections[i]@, marker::LEFT_MARKER_ID)->0).value()
            <= detect::area_of(
            links::corners_of(detections[ka]@, marker::LEFT_MARKER_ID)->0,
        ).value(),
{
    let areas = closure::areas_of(detections, marker::LEFT_MARKER_ID);
    law_best_score_is_the_highest(areas, detections.len() as int);
    assert(areas[i] is Some);
}

/// A view of Marker B: its area and how sharp it is, both of ordinary size.
pub open spec fn is_view(area: Double, sharpness: Double) -> bool {
    &&& area.finite() && 0real <= rounding::real_of(area) <= 10000000real
    &&& sharpness.finite() && 1real / 1000000real <= rounding::real_of(sharpness) <= 100real
}

/// The loop is closed at the keyframe where the area of Marker B times the sharpness is
/// largest: neither a large blurred view nor a small sharp one wins by itself.
pub proof fn law_loop_is_closed_at_the_best_view(
    detections: Seq<Vec<DetectedMarker>>,
    sharpness: Seq<Double>,
    kb: int,
    i: int,
)
    requires
        sharpness.len() == detections.len(),
        are_numbers(closure::closure_scores(detections, sharpness)),
        closure::closer_of(detections, sharpness) == Some(kb),
        0 <= i < detections.len(),
        closure::areas_of(detections, marker::RIGHT_MARKER_ID)[i] is Some,
        closure::areas_of(detections, marker::RIGHT_MARKER_ID)[kb] is Some ==> is_view(
            closure::areas_of(detections, marker::RIGHT_MARKER_ID)[kb]->0,
            sharpness[kb],
        ),
        is_view(closure::areas_of(detections, marker::RIGHT_MARKER_ID)[i]->0, sharpness[i]),
    ensures
        0 <= kb < detections.len(),
        links::corners_of(detections[kb]@, marker::RIGHT_MARKER_ID) is Some,
        ({
            let areas = closure::areas_of(detections, marker::RIGHT_MARKER_ID);
            rounding::real_of(areas[i]->0) * rounding::real_of(sharpness[i]) <= rounding::real_of(
                areas[kb]->0,
            ) * rounding::real_of(sharpness[kb]) + 1real / 100000real
        }),
{
    let areas = closure::areas_of(detections, marker::RIGHT_MARKER_ID);
    let scores = closure::closure_scores(detections, sharpness);
    law_best_score_is_the_highest(scores, detections.len() as int);
    assert(scores[i] is Some);
    assert(scores[kb] is Some && areas[kb] is Some);
    lemma_score(areas[i]->0, sharpness[i]);
    lemma_score(areas[kb]->0, sharpness[kb]);
    rounding::lemma_order(scores[kb]->0, scores[i]->0);
}

proof fn lemma_score(area: Double, sharpness: Double)
    requires
        is_view(area, sharpness),
    ensures
        ordinary::is_about(
            area * double::larger(sharpness, Double { bits: closure::LEAST_SHARPNESS }),
            rounding::real_of(area) * rounding::real_of(sharpness),
        ),
{
    let least = Double { bits: closure::LEAST_SHARPNESS };
    lemma_least(least);
    rounding::lemma_order(sharpness, least);
    let (a, s) = (rounding::real_of(area), rounding::real_of(sharpness));
    assert(0real <= a * s && a * s <= 1000000000real) by (nonlinear_arith)
        requires
            0real <= a <= 10000000real,
            0real <= s <= 100real,
    ;
    ordinary::lemma_times(area, sharpness);
}

/// 1e-9 is less than a millionth.
pub proof fn lemma_least(d: Double)
    requires
        d.bits == 0x3e11_2e0b_e826_d695,
    ensures
        d.finite(),
        0real < rounding::real_of(d) < 1real / 1000000real,
{
    power2::lemma2_to64();
    power2::lemma2_to64_rest();
    power2::lemma_pow2_adds(64, 8);
    let most = Double { bits: 0x3eb0_0000_0000_0000 };
    assert(power2::pow2(72) == 0x100_0000_0000_0000_0000) by {
        assert(0x1_0000_0000_0000_0000 * 256 == 0x100_0000_0000_0000_0000int);
    }
    significand::lemma_bits_are(most, 72, 0x100_0000_0000_0000_0000, 0x10_0000_0000_0000);
    rounding::lemma_constants();
    crate::magnitude::lemma_units_increase(0, d.magnitude());
    crate::magnitude::lemma_units_increase(d.magnitude(), most.magnitude());
    rounding::lemma_order(Double { bits: 0 }, d);
    rounding::lemma_order(d, most);
}

proof fn lemma_limits()
    ensures
        rounding::real_of(Double { bits: closure::MAX_BACK_PROJECTION_MM }) == 16000real,
        rounding::real_of(Double { bits: closure::MAX_CLOSURE_DISCREPANCY_MM }) == 50real,
        rounding::within(
            1000000real * rounding::real_of(Double { bits: closure::MAX_CLOSURE_SCALE_DEV }),
            30000real,
            1real,
        ),
        rounding::real_of(Double { bits: closure::ONE }) == 1real,
{
    power2::lemma2_to64();
    power2::lemma2_to64_rest();
    rounding::lemma_constants();
    significand::lemma_bits_are(
        Double { bits: closure::MAX_BACK_PROJECTION_MM },
        39,
        0x80_0000_0000,
        0x1f_4000_0000_0000,
    );
    significand::lemma_bits_are(
        Double { bits: closure::MAX_CLOSURE_DISCREPANCY_MM },
        47,
        0x8000_0000_0000,
        0x19_0000_0000_0000,
    );
    significand::lemma_bits_are(
        Double { bits: closure::MAX_CLOSURE_SCALE_DEV },
        58,
        0x400_0000_0000_0000,
        0x1e_b851_eb85_1eb8,
    );
}

/// A position on the wall is plausible if and only if it is nearer than 16 m along both
/// axes, on either side of the anchor.
pub proof fn law_plausible_positions_are_near(p: (Double, Double))
    requires
        p.0.finite(),
        p.1.finite(),
    ensures
        closure::is_near(p) <==> rounding::size(rounding::real_of(p.0)) < 16000real
            && rounding::size(rounding::real_of(p.1)) < 16000real,
{
    lemma_limits();
    let far = Double { bits: closure::MAX_BACK_PROJECTION_MM };
    rounding::lemma_absolute(p.0);
    rounding::lemma_absolute(p.1);
    rounding::lemma_order(double::absolute(p.0), far);
    rounding::lemma_order(double::absolute(p.1), far);
}

/// Drift is credible up to 50 mm and up to 3% of scale, too large a scale as well as too
/// small a one.
pub proof fn law_credible_drift_is_small(d: Drift)
    requires
        ordinary::is_ordinary(d.discrepancy_mm),
        ordinary::is_ordinary(d.scale),
    ensures
        closure::is_credible(d) ==> rounding::real_of(d.discrepancy_mm) <= 50real
            && 969real <= 1000real * rounding::real_of(d.scale) <= 1031real,
        rounding::real_of(d.discrepancy_mm) <= 50real && 971real <= 1000real * rounding::real_of(
            d.scale,
        ) <= 1029real ==> closure::is_credible(d),
{
    lemma_limits();
    let one = Double { bits: closure::ONE };
    let (most, dev) = (
        Double { bits: closure::MAX_CLOSURE_DISCREPANCY_MM },
        Double { bits: closure::MAX_CLOSURE_SCALE_DEV },
    );
    rounding::lemma_order(most, d.discrepancy_mm);
    ordinary::lemma_minus(d.scale, one);
    let off = double::difference(d.scale, one);
    rounding::lemma_absolute(off);
    rounding::lemma_order(dev, double::absolute(off));
}

/// The fraction of the way to Marker B: none at the anchor and behind it, all of it at
/// Marker B and beyond, and in between the share of the way, whichever way the chain runs.
pub proof fn law_fraction_is_the_share_of_the_way(s: Seq<Double>, span: Double, i: int)
    requires
        ordinary::is_ordinary(s[i]),
        span.finite(),
        1real / 1000real <= rounding::size(rounding::real_of(span)) <= 1000000real,
    ensures
        ({
            let f = closure::fraction(s, span, i);
            let (x, y) = (rounding::real_of(s[i]), rounding::real_of(span));
            let t = rounding::real_of(f);
            &&& f.finite()
            &&& 0real <= t <= 1real
            &&& 0real < t < 1real ==> rounding::within(t * y, x, 1real / 1000000real)
            &&& t == 0real ==> (if y > 0real {
                x <= 1real / 1000000real
            } else {
                x >= -1real / 1000000real
            })
            &&& t == 1real ==> (if y > 0real {
                x >= y - 1real / 1000000real
            } else {
                x <= y + 1real / 1000000real
            })
        }),
{
    lemma_limits();
    rounding::lemma_constants();
    let least = Double { bits: closure::LEAST_SPAN };
    lemma_least(least);
    rounding::lemma_absolute(span);
    rounding::lemma_order(double::absolute(span), least);
    ordinary::lemma_over(s[i], span);
    let q = s[i].per(span);
    rounding::lemma_order(q, Double { bits: 0 });
    rounding::lemma_order(Double { bits: closure::ONE }, q);
    let (v, y) = (rounding::real_of(q), rounding::real_of(span));
    lemma_sides(v, y);
}

/// On which side of none and of all a share is.
proof fn lemma_sides(v: real, y: real)
    requires
        y != 0real,
    ensures
        v <= 0real ==> (if y > 0real {
            v * y <= 0real
        } else {
            v * y >= 0real
        }),
        v >= 1real ==> (if y > 0real {
            v * y >= y
        } else {
            v * y <= y
        }),
{
    if y > 0real {
        if v <= 0real {
            assert(v * y <= 0real) by (nonlinear_arith)
                requires
                    v <= 0real,
                    y > 0real,
            ;
        }
        if v >= 1real {
            assert(v * y >= y) by (nonlinear_arith)
                requires
                    v >= 1real,
                    y > 0real,
            ;
        }
    } else {
        if v <= 0real {
            assert(v * y >= 0real) by (nonlinear_arith)
                requires
                    v <= 0real,
                    y < 0real,
            ;
        }
        if v >= 1real {
            assert(v * y <= y) by (nonlinear_arith)
                requires
                    v >= 1real,
                    y < 0real,
            ;
        }
    }
}

/// A correction takes the position of a keyframe to where it belongs, and scales what is
/// around it by the local scale, along both axes alike.
pub proof fn law_correction_moves_a_keyframe_to_its_place(st: Double, from: Point, to: Point)
    requires
        st.finite(),
        rounding::size(rounding::real_of(st)) <= 100real,
        forall|k: int|
            0 <= k < 2 ==> (#[trigger] from[k]).finite() && rounding::size(
                rounding::real_of(from[k]),
            ) <= 1000000real,
        forall|k: int|
            0 <= k < 2 ==> (#[trigger] to[k]).finite() && rounding::size(
                rounding::real_of(to[k]),
            ) <= 1000000real,
    ensures
        ({
            let m = closure::wall_correction(st, from, to);
            &&& m[0] == st && m[4] == st
            &&& rounding::real_of(m[1]) == 0real && rounding::real_of(m[3]) == 0real
            &&& rounding::real_of(m[6]) == 0real && rounding::real_of(m[7]) == 0real
            &&& rounding::real_of(m[8]) == 1real
            &&& rounding::within(
                rounding::real_of(m[0]) * rounding::real_of(from[0]) + rounding::real_of(m[2]),
                rounding::real_of(to[0]),
                1real / 100000real,
            )
            &&& rounding::within(
                rounding::real_of(m[4]) * rounding::real_of(from[1]) + rounding::real_of(m[5]),
                rounding::real_of(to[1]),
                1real / 100000real,
            )
        }),
{
    rounding::lemma_constants();
    lemma_limits();
    assert(from[0].finite() && from[1].finite() && to[0].finite() && to[1].finite());
    lemma_offset(st, from[0], to[0]);
    lemma_offset(st, from[1], to[1]);
}

proof fn lemma_offset(st: Double, from: Double, to: Double)
    requires
        st.finite(),
        rounding::size(rounding::real_of(st)) <= 100real,
        from.finite(),
        rounding::size(rounding::real_of(from)) <= 1000000real,
        to.finite(),
        rounding::size(rounding::real_of(to)) <= 1000000real,
    ensures
        rounding::within(
            rounding::real_of(st) * rounding::real_of(from) + rounding::real_of(to - st * from),
            rounding::real_of(to),
            1real / 100000real,
        ),
{
    crate::fit_error::lemma_product_bound(
        rounding::real_of(st),
        rounding::real_of(from),
        100real,
        1000000real,
    );
    ordinary::lemma_times(st, from);
    ordinary::lemma_minus(to, st * from);
}

/// Distances along the chain are counted from the anchor: up behind it, down in front of
/// it, by the distance of each keyframe from its neighbour.
pub proof fn law_chain_distance_is_signed(centres: Seq<Point>, ka: int, i: int)
    requires
        0 <= ka < centres.len(),
        0 <= i < centres.len() - 1,
        ordinary::is_ordinary(chain::along_chain(centres, ka, i)),
        ordinary::is_ordinary(chain::along_chain(centres, ka, i + 1)),
        ordinary::is_ordinary(chain::gap(centres[i + 1], centres[i])),
        ordinary::is_ordinary(chain::gap(centres[i], centres[i + 1])),
    ensures
        rounding::real_of(chain::along_chain(centres, ka, ka)) == 0real,
        i >= ka ==> rounding::within(
            rounding::real_of(chain::along_chain(centres, ka, i + 1)) - rounding::real_of(
                chain::along_chain(centres, ka, i),
            ),
            rounding::real_of(chain::gap(centres[i + 1], centres[i])),
            1real / 1000000real,
        ),
        i < ka ==> rounding::within(
            rounding::real_of(chain::along_chain(centres, ka, i + 1)) - rounding::real_of(
                chain::along_chain(centres, ka, i),
            ),
            rounding::real_of(chain::gap(centres[i], centres[i + 1])),
            1real / 1000000real,
        ),
{
    rounding::lemma_constants();
    if i >= ka {
        ordinary::lemma_plus(
            chain::along_chain(centres, ka, i),
            chain::gap(centres[i + 1], centres[i]),
        );
    } else {
        ordinary::lemma_minus(
            chain::along_chain(centres, ka, i + 1),
            chain::gap(centres[i], centres[i + 1]),
        );
    }
}

/// The centroid of a quad is the mean of its corners, along each axis.
pub proof fn law_centroid_is_the_mean_of_the_corners(q: Quad, axis: int)
    requires
        0 <= axis < 2,
        forall|k: int|
            0 <= k < 4 ==> (#[trigger] q[k])[axis].finite() && rounding::size(
                rounding::real_of(q[k][axis]),
            ) <= 1000000real,
    ensures
        closure::centroid(q, axis).finite(),
        rounding::within(
            4real * rounding::real_of(closure::centroid(q, axis)),
            rounding::real_of(q[0][axis]) + rounding::real_of(q[1][axis]) + rounding::real_of(
                q[2][axis],
            ) + rounding::real_of(q[3][axis]),
            1real / 10000real,
        ),
{
    assert(q[0][axis].finite() && q[1][axis].finite() && q[2][axis].finite()
        && q[3][axis].finite());
    lemma_quarter(q[0][axis]);
    lemma_quarter(q[1][axis]);
    lemma_quarter(q[2][axis]);
    lemma_quarter(q[3][axis]);
    rounding::lemma_constants();
    let four = Double { bits: closure::FOUR };
    let zero = Double { bits: 0 };
    let a = zero + q[0][axis].per(four);
    ordinary::lemma_plus(zero, q[0][axis].per(four));
    let b = a + q[1][axis].per(four);
    ordinary::lemma_plus(a, q[1][axis].per(four));
    let c = b + q[2][axis].per(four);
    ordinary::lemma_plus(b, q[2][axis].per(four));
    ordinary::lemma_plus(c, q[3][axis].per(four));
}

proof fn lemma_quarter(v: Double)
    requires
        v.finite(),
        rounding::size(rounding::real_of(v)) <= 1000000real,
    ensures
        ({
            let d = v.per(Double { bits: closure::FOUR });
            d.finite() && rounding::within(
                4real * rounding::real_of(d),
                rounding::real_of(v),
                1real / 1000000real,
            )
        }),
{
    rounding::lemma_constants();
    let four = Double { bits: closure::FOUR };
    ordinary::lemma_over(v, four);
    let (x, y) = (rounding::real_of(v.per(four)), rounding::real_of(four));
    assert(x * y == 4real * x) by (nonlinear_arith)
        requires
            y == 4real,
    ;
}

/// A quad whose corners are places on a wall.
pub open spec fn is_placed(q: Quad) -> bool {
    forall|k: int| 0 <= k < 4 ==> crate::wall_law::is_spot(#[trigger] q[k])
}

/// The discrepancy of two quads is the root of the mean squared distance of their corners,
/// each from its own counterpart.
pub proof fn law_discrepancy_is_that_of_the_corners(a: Quad, b: Quad)
    requires
        is_placed(a),
        is_placed(b),
        forall|k: int|
            0 <= k < 4 ==> #[trigger] crate::wall_law::exact_square(a[k], b[k]) <= 100000000real,
    ensures
        ({
            let r = closure::quad_rms(a, b);
            let s = crate::wall_law::exact_square(a[0], b[0]) + crate::wall_law::exact_square(
                a[1],
                b[1],
            ) + crate::wall_law::exact_square(a[2], b[2]) + crate::wall_law::exact_square(
                a[3],
                b[3],
            );
            &&& s >= 1real / 1000real ==> r.finite() && rounding::real_of(r) >= 0real
                && rounding::within(
                4real * (rounding::real_of(r) * rounding::real_of(r)),
                s,
                s / 1000000real + 1real / 10000real,
            )
        }),
{
    assert(crate::wall_law::is_spot(a[0]) && crate::wall_law::is_spot(a[1])
        && crate::wall_law::is_spot(a[2]) && crate::wall_law::is_spot(a[3]));
    assert(crate::wall_law::is_spot(b[0]) && crate::wall_law::is_spot(b[1])
        && crate::wall_law::is_spot(b[2]) && crate::wall_law::is_spot(b[3]));
    crate::wall_law::lemma_square_distance(a[0], b[0]);
    crate::wall_law::lemma_square_distance(a[1], b[1]);
    crate::wall_law::lemma_square_distance(a[2], b[2]);
    crate::wall_law::lemma_square_distance(a[3], b[3]);
    let (e0, e1, e2, e3) = (
        crate::wall_law::exact_square(a[0], b[0]),
        crate::wall_law::exact_square(a[1], b[1]),
        crate::wall_law::exact_square(a[2], b[2]),
        crate::wall_law::exact_square(a[3], b[3]),
    );
    let s = e0 + e1 + e2 + e3;
    let (g0, g1, g2, g3) = (
        closure::corner_gap2(a, b, 0),
        closure::corner_gap2(a, b, 1),
        closure::corner_gap2(a, b, 2),
        closure::corner_gap2(a, b, 3),
    );
    rounding::lemma_constants();
    let zero = Double { bits: 0 };
    let s0 = zero + g0;
    ordinary::lemma_plus(zero, g0);
    let s1 = s0 + g1;
    ordinary::lemma_plus(s0, g1);
    let s2 = s1 + g2;
    ordinary::lemma_plus(s1, g2);
    let s3 = s2 + g3;
    ordinary::lemma_plus(s2, g3);
    if s >= 1real / 1000real {
        let four = Double { bits: closure::FOUR };
        ordinary::lemma_over(s3, four);
        let d = s3.per(four);
        let (x, y) = (rounding::real_of(d), rounding::real_of(four));
        assert(x * y == 4real * x) by (nonlinear_arith)
            requires
                y == 4real,
        ;
        rounding::lemma_root(d);
        rounding::lemma_units_are_small();
        let u = rounding::unit();
        assert(0real <= 2real * u * x && 2real * u * x <= x / 1000000000real)
            by (nonlinear_arith)
            requires
                0real <= x,
                u * 4503599627370496real == 1real,
                u > 0real,
        ;
    }
}

/// A calibration proves a bent lens where its k1 is more than two sigmas from none, on
/// either side.
pub proof fn law_lens_can_bend_either_way(c: crate::calib::SelfCalibration)
    requires
        ordinary::is_ordinary(c.k1),
        c.k1_sigma.finite(),
        0real <= rounding::real_of(c.k1_sigma) <= 1000real,
    ensures
        rounding::size(rounding::real_of(c.k1)) > 2real * rounding::real_of(c.k1_sigma) + 1real
            / 100000real ==> crate::panorama::is_bent(c),
        rounding::size(rounding::real_of(c.k1)) < 2real * rounding::real_of(c.k1_sigma) - 1real
            / 100000real ==> !crate::panorama::is_bent(c),
{
    rounding::lemma_constants();
    let two = Double { bits: crate::bound::K95 };
    let (w, s) = (rounding::real_of(two), rounding::real_of(c.k1_sigma));
    assert(w * s == 2real * s) by (nonlinear_arith)
        requires
            w == 2real,
    ;
    ordinary::lemma_times(two, c.k1_sigma);
    rounding::lemma_absolute(c.k1);
    rounding::lemma_order(double::product(two, c.k1_sigma), double::absolute(c.k1));
}

/// A focal is plausible from four tenths to eight times the larger side of the frame.
pub proof fn law_plausible_focals_fit_the_frame(f: Double, dim: Double)
    requires
        ordinary::is_ordinary(f),
        dim.finite(),
        1real <= rounding::real_of(dim) <= 100000real,
    ensures
        41real / 100real * rounding::real_of(dim) <= rounding::real_of(f) <= 799real / 100real
            * rounding::real_of(dim) ==> crate::calib::is_plausible_focal(f, dim),
        crate::calib::is_plausible_focal(f, dim) ==> 39real / 100real * rounding::real_of(dim)
            <= rounding::real_of(f) <= 801real / 100real * rounding::real_of(dim),
{
    power2::lemma2_to64();
    power2::lemma2_to64_rest();
    let (lo, hi) = (
        Double { bits: crate::calib::MIN_FOCAL_FRAC },
        Double { bits: crate::calib::MAX_FOCAL_FRAC },
    );
    significand::lemma_bits_are(lo, 54, 0x40_0000_0000_0000, 0x19_9999_9999_999a);
    significand::lemma_bits_are(hi, 49, 0x2_0000_0000_0000, 0x10_0000_0000_0000);
    let (a, b, d) = (rounding::real_of(lo), rounding::real_of(hi), rounding::real_of(dim));
    assert(b * d == 8real * d) by (nonlinear_arith)
        requires
            b == 8real,
    ;
    assert(399real / 1000real * d <= a * d && a * d <= 401real / 1000real * d)
        by (nonlinear_arith)
        requires
            399real / 1000real <= a <= 401real / 1000real,
            d >= 1real,
    ;
    ordinary::lemma_times(lo, dim);
    ordinary::lemma_times(hi, dim);
    rounding::lemma_order(f, double::product(lo, dim));
    rounding::lemma_order(double::product(hi, dim), f);
}

/// The scale of a closure is no better known than the corner noise of Marker B allows: 0.3
/// px at its scale, more by half the blur where that is over 2 px, over the diagonal of
/// the marker.
pub proof fn law_corner_noise_limits_the_scale(side: Double, mm_per_px: Double, blur: Double)
    requires
        side.finite(),
        10real <= rounding::real_of(side) <= 1000real,
        mm_per_px.finite(),
        0real <= rounding::real_of(mm_per_px) <= 10real,
        blur.finite(),
        0real <= rounding::real_of(blur) <= 100real,
    ensures
        ({
            let f = crate::loop_closure::noise_floor(side, mm_per_px, blur);
            let b = rounding::real_of(blur);
            let penalty = if b < 2real {
                1real
            } else {
                b / 2real
            };
            f.finite() && rounding::within(
                rounding::real_of(f) * (1414213562real / 1000000000real * rounding::real_of(side)),
                3real / 10real * rounding::real_of(mm_per_px) * penalty,
                1real / 100real,
            )
        }),
{
    power2::lemma2_to64();
    power2::lemma2_to64_rest();
    rounding::lemma_constants();
    let (two, one) = (Double { bits: closure::TWO }, Double { bits: closure::ONE });
    let (sigma, root) = (
        Double { bits: closure::CORNER_SIGMA_FLOOR_PX },
        Double { bits: closure::SQRT_2 },
    );
    significand::lemma_bits_are(sigma, 54, 0x40_0000_0000_0000, 0x13_3333_3333_3333);
    significand::lemma_bits_are(root, 52, 0x10_0000_0000_0000, 0x16_a09e_667f_3bcd);
    ordinary::lemma_over(blur, two);
    let half = blur.per(two);
    let (h, w) = (rounding::real_of(half), rounding::real_of(two));
    assert(h * w == 2real * h) by (nonlinear_arith)
        requires
            w == 2real,
    ;
    rounding::lemma_order(half, one);
    let pen = double::larger(half, one);
    let b = rounding::real_of(blur);
    let penalty = if b < 2real {
        1real
    } else {
        b / 2real
    };
    let p = rounding::real_of(pen);
    assert(rounding::within(p, penalty, 1real / 1000000real));
    let (c, m) = (rounding::real_of(sigma), rounding::real_of(mm_per_px));
    crate::fit_error::lemma_product_bound(c, m, 1real, 10real);
    ordinary::lemma_times(sigma, mm_per_px);
    let cm = rounding::real_of(sigma * mm_per_px);
    let exact = 3real / 10real * m;
    let g = c - 3real / 10real;
    crate::fit_error::lemma_product_bound(g, m, 1real / 1000000000real, 10real);
    assert(c * m == exact + g * m) by (nonlinear_arith)
        requires
            g == c - 3real / 10real,
            exact == 3real / 10real * m,
    ;
    crate::fit_error::lemma_product_bound(cm, p, 4real, 51real);
    ordinary::lemma_times(sigma * mm_per_px, pen);
    let top = sigma * mm_per_px * pen;
    let (e, f) = (cm - exact, p - penalty);
    crate::fit_error::lemma_product_bound(e, p, 2real / 1000000real, 51real);
    crate::fit_error::lemma_product_bound(exact, f, 3real, 1real / 1000000real);
    assert(cm * p == exact * penalty + e * p + exact * f) by (nonlinear_arith)
        requires
            e == cm - exact,
            f == p - penalty,
    ;
    let (s, r) = (rounding::real_of(side), rounding::real_of(root));
    crate::fit_error::lemma_product_bound(s, r, 1000real, 2real);
    ordinary::lemma_times(side, root);
    let bottom = side * root;
    let q = rounding::real_of(bottom);
    let (diag, i) = (1414213562real / 1000000000real * s, r - 1414213562real / 1000000000real);
    crate::fit_error::lemma_product_bound(s, i, 1000real, 1real / 1000000000real);
    assert(s * r == diag + s * i) by (nonlinear_arith)
        requires
            i == r - 1414213562real / 1000000000real,
            diag == 1414213562real / 1000000000real * s,
    ;
    ordinary::lemma_over(top, bottom);
    let v = rounding::real_of(top.per(bottom));
    crate::fit_error::lemma_size_product(v, q);
    let (sv, sq) = (rounding::size(v), rounding::size(q));
    assert(sv * sq <= 15real * sq);
    crate::fit_error::lemma_cancel(sv, 15real, sq);
    let j = diag - q;
    crate::fit_error::lemma_product_bound(v, j, 15real, 3real / 1000000real);
    assert(v * diag == v * q + v * j) by (nonlinear_arith)
        requires
            j == diag - q,
    ;
}

} // verus!
