//! Closing the loop at Marker B: from its back-projection to the corrected
//! chain and what the closure tells of the remaining error.
use vstd::prelude::*;

use crate::closure;
use crate::closure::{
    anchor_corners_mm, back_project, credible, fit_rigid_square, local_mm_per_px, measure_drift,
    redistribute, rms4, see_on_wall, similarity_scale, Drift, Quad,
};
use crate::detect::DetectedMarker;
use crate::double;
use crate::double::Double;
use crate::edge::Point;
use crate::linalg::Mat3;
use crate::links;
use crate::links::find_marker;
use crate::marker::RIGHT_MARKER_ID;

verus! {

/// Loop-closure record.
#[derive(Clone, Copy, Debug)]
pub struct Closure {
    /// Keyframe index that provided Marker B.
    pub keyframe: usize,
    /// RMS distance (mm) between B's chained back-projection and the ideal
    /// rigid square before correction: the measured chain drift.
    pub discrepancy_mm: Double,
    /// RMS distance (mm) remaining after the correction.
    pub residual_mm: Double,
    /// Scale factor the redistribution applied at the far end (1.0 = none).
    pub scale_correction: Double,
}

/// A closed loop.
pub struct Closed {
    pub w_chain: Vec<Mat3>,
    pub closure: Closure,
    /// Relative scale uncertainty that the closure leaves.
    pub rel: Double,
    /// Span from the anchor to B (mm) and the residual there (mm).
    pub ramp: (Double, Double),
    /// Wall x of B's far edge, if B can still be seen on the wall.
    pub far_x: Option<Double>,
}

/// The one of two values that is farther from zero; the first where neither is.
pub open spec fn farther(a: Double, b: Double) -> Double {
    if a.size().less(b.size()) {
        b
    } else {
        a
    }
}

/// The one of two values that is farther from zero.
pub fn farther_of(a: Double, b: Double) -> (r: Double)
    ensures
        r == farther(a, b),
{
    if a.abs().lt(&b.abs()) {
        b
    } else {
        a
    }
}

/// x of the corner that is farthest from the anchor.
pub open spec fn far_edge(q: Quad) -> Double {
    farther(
        farther(farther(farther(Double { bits: 0 }, q[0][0]), q[1][0]), q[2][0]),
        q[3][0],
    )
}

/// What is left of the drift at B, and B's far edge, after redistribution.
pub open spec fn residual_at<T: Fn(Double, Double) -> (Double, Double)>(
    turn: &T,
    side: Double,
    w: Mat3,
    corners: Quad,
    before: Double,
) -> (Double, Option<Double>) {
    match closure::seen_on_wall(w, corners) {
        None => (before, None),
        Some(q) => {
            let s = closure::posed(turn, closure::square_of(side), q);
            (closure::quad_rms(q, s), Some(far_edge(s)))
        },
    }
}

/// `turn` answers every question, always in the same way.
pub open spec fn is_turn<T: Fn(Double, Double) -> (Double, Double)>(turn: &T) -> bool {
    &&& forall|y: Double, x: Double| call_requires(turn, (y, x))
    &&& forall|y: Double, x: Double, u: (Double, Double), v: (Double, Double)|
        #[trigger] call_ensures(turn, (y, x), u) && #[trigger] call_ensures(turn, (y, x), v) ==> u
            == v
}

fn residual<T: Fn(Double, Double) -> (Double, Double)>(
    turn: &T,
    side_mm: Double,
    w: &Mat3,
    corners: &Quad,
    before: Double,
) -> (r: (Double, Option<Double>))
    requires
        is_turn(turn),
    ensures
        r == residual_at(turn, side_mm, *w, *corners, before),
{
    match see_on_wall(w, corners) {
        None => (before, None),
        Some(q) => {
            let s: Quad = fit_rigid_square(turn, &anchor_corners_mm(side_mm), &q);
            let zero: Double = Double::from_bits(0);
            let far: Double = farther_of(
                farther_of(farther_of(farther_of(zero, s[0][0]), s[1][0]), s[2][0]),
                s[3][0],
            );
            (rms4(&q, &s), Some(far))
        },
    }
}

/// No corner of the quad is farther than plausible.
pub open spec fn is_within_reach(q: Quad) -> bool {
    let far = Double { bits: closure::MAX_BACK_PROJECTION_MM };
    forall|k: int|
        0 <= k < 4 ==> !far.less((#[trigger] q[k])[0].size()) && !far.less(q[k][1].size())
}

fn within_reach(q: &Quad) -> (ok: bool)
    ensures
        ok == is_within_reach(*q),
{
    let far: Double = Double::from_bits(closure::MAX_BACK_PROJECTION_MM);
    let mut k: usize = 0;
    while k < 4
        invariant
            k <= 4,
            far == (Double { bits: closure::MAX_BACK_PROJECTION_MM }),
            forall|i: int|
                0 <= i < k ==> !far.less((#[trigger] q[i])[0].size()) && !far.less(q[i][1].size()),
        decreases 4 - k,
    {
        if far.lt(&q[k][0].abs()) || far.lt(&q[k][1].abs()) {
            return false;
        }
        k = k + 1;
    }
    true
}

/// Closure scale that a keyframe's view of B gives, if it has one.
pub open spec fn view_scale<T: Fn(Double, Double) -> (Double, Double)>(
    turn: &T,
    side: Double,
    w: Mat3,
    markers: Seq<DetectedMarker>,
) -> Option<Double> {
    match links::corners_of(markers, RIGHT_MARKER_ID) {
        None => None,
        Some(corners) => match closure::seen_on_wall(w, corners) {
            Some(q) if is_within_reach(q) => Some(
                closure::scale_between(q, closure::posed(turn, closure::square_of(side), q)),
            ),
            _ => None,
        },
    }
}

/// Closure scales of the first `n` keyframes.
pub open spec fn view_scales<T: Fn(Double, Double) -> (Double, Double)>(
    turn: &T,
    side: Double,
    chain: Seq<Mat3>,
    detections: Seq<Vec<DetectedMarker>>,
    n: int,
) -> Seq<Double>
    decreases n,
{
    if n <= 0 {
        Seq::empty()
    } else {
        match view_scale(turn, side, chain[n - 1], detections[n - 1]@) {
            Some(v) => view_scales(turn, side, chain, detections, n - 1).push(v),
            None => view_scales(turn, side, chain, detections, n - 1),
        }
    }
}

fn scale_in_view<T: Fn(Double, Double) -> (Double, Double)>(
    turn: &T,
    side_mm: Double,
    w: &Mat3,
    markers: &Vec<DetectedMarker>,
) -> (scale: Option<Double>)
    requires
        is_turn(turn),
    ensures
        scale == view_scale(turn, side_mm, *w, markers@),
{
    match find_marker(markers, RIGHT_MARKER_ID) {
        None => None,
        Some(corners) => match see_on_wall(w, &corners) {
            None => None,
            Some(q) => {
                if within_reach(&q) {
                    let s: Quad = fit_rigid_square(turn, &anchor_corners_mm(side_mm), &q);
                    Some(similarity_scale(&q, &s))
                } else {
                    None
                }
            },
        },
    }
}

/// Sum of the first `n` values.
pub open spec fn total(values: Seq<Double>, n: int) -> Double
    decreases n,
{
    if n <= 0 {
        Double { bits: 0 }
    } else {
        total(values, n - 1) + values[n - 1]
    }
}

/// Squared deviations of the first `n` values from `mean`, summed.
pub open spec fn deviations(values: Seq<Double>, mean: Double, n: int) -> Double
    decreases n,
{
    if n <= 0 {
        Double { bits: 0 }
    } else {
        deviations(values, mean, n - 1) + (values[n - 1] - mean) * (values[n - 1] - mean)
    }
}

/// Standard deviation of a sample.
pub open spec fn spread_of(values: Seq<Double>) -> Double {
    let m = double::whole(values.len() as int);
    let mean = total(values, values.len() as int).per(m);
    deviations(values, mean, values.len() as int).per(m - Double { bits: closure::ONE }).root()
}

/// Standard deviation of a sample.
pub fn sample_spread(values: &Vec<Double>) -> (sd: Double)
    requires
        values@.len() < 0x20_0000_0000_0000,
    ensures
        sd == spread_of(values@),
{
    let m: Double = Double::from_count(values.len() as u64);
    let mut sum: Double = Double::from_bits(0);
    let mut i: usize = 0;
    while i < values.len()
        invariant
            i <= values@.len(),
            sum == total(values@, i as int),
        decreases values@.len() - i,
    {
        sum = sum + values[i];
        i = i + 1;
    }
    let mean: Double = sum / m;
    let mut acc: Double = Double::from_bits(0);
    let mut k: usize = 0;
    while k < values.len()
        invariant
            k <= values@.len(),
            acc == deviations(values@, mean, k as int),
        decreases values@.len() - k,
    {
        let d: Double = values[k] - mean;
        acc = acc + d * d;
        k = k + 1;
    }
    (acc / (m - Double::from_bits(closure::ONE))).sqrt()
}

/// Relative scale uncertainty from B's corner noise over the marker baseline:
/// the noise grows with the blur of B's edges.
pub open spec fn noise_floor(side: Double, mm_per_px: Double, blur_px: Double) -> Double {
    let penalty = double::larger(
        blur_px.per(Double { bits: closure::TWO }),
        Double { bits: closure::ONE },
    );
    (Double { bits: closure::CORNER_SIGMA_FLOOR_PX } * mm_per_px * penalty).per(
        side * Double { bits: closure::SQRT_2 },
    )
}

/// Relative scale uncertainty of the closure: the noise of B's corners, or how
/// much its views disagree, whichever is more.
pub open spec fn scale_uncertainty(floor: Double, scales: Seq<Double>) -> Double {
    if scales.len() >= 2 {
        double::larger(floor, spread_of(scales))
    } else {
        floor
    }
}

/// mm per px at a corner of the square posed on B, or 1.
pub open spec fn closure_mm_per_px(w: Mat3, corner: Point) -> Double {
    match closure::mm_per_px_at(w, corner) {
        Some(v) => v,
        None => Double { bits: closure::ONE },
    }
}

/// `out` is the loop closed at keyframe `kb`, whose Marker B has these corners;
/// it stays open when B back-projects implausibly, the drift is not credible or
/// it cannot be redistributed.
#[verifier::opaque]
pub open spec fn is_loop_closed<
    T: Fn(Double, Double) -> (Double, Double),
    P: Fn(Double, Double) -> Double,
>(
    turn: &T,
    power: &P,
    side: Double,
    chain: Seq<Mat3>,
    centres: Seq<Point>,
    s: Seq<Double>,
    ka: int,
    kb: int,
    detections: Seq<Vec<DetectedMarker>>,
    corners: Quad,
    blur_px: Double,
    out: Option<Closed>,
) -> bool {
    match closure::back_projection(chain[kb], corners) {
        None => out is None,
        Some(q) => {
            let drift = closure::drift_of(turn, side, q);
            let posed = closure::posed(turn, closure::square_of(side), q);
            if !closure::is_credible(drift) {
                out is None
            } else {
                match out {
                    None => exists|i: int|
                        0 <= i < chain.len() && closure::redistributed(
                            power,
                            drift.scale,
                            s,
                            s[kb],
                            centres,
                            ka,
                            #[trigger] chain[i],
                            i,
                        ) is None,
                    Some(c) => {
                        let (left, far) = residual_at(
                            turn,
                            side,
                            c.w_chain@[kb],
                            corners,
                            drift.discrepancy_mm,
                        );
                        &&& c.w_chain@.len() == chain.len()
                        &&& forall|i: int|
                            0 <= i < chain.len() ==> closure::redistributed(
                                power,
                                drift.scale,
                                s,
                                s[kb],
                                centres,
                                ka,
                                chain[i],
                                i,
                            ) == Some(#[trigger] c.w_chain@[i])
                        &&& c.closure.keyframe == kb
                        &&& c.closure.discrepancy_mm == drift.discrepancy_mm
                        &&& c.closure.residual_mm == left
                        &&& c.closure.scale_correction == drift.scale
                        &&& c.rel == scale_uncertainty(
                            noise_floor(
                                side,
                                closure_mm_per_px(c.w_chain@[kb], posed[0]),
                                blur_px,
                            ),
                            view_scales(
                                turn,
                                side,
                                c.w_chain@,
                                detections,
                                detections.len() as int,
                            ),
                        )
                        &&& c.ramp == (double::larger(s[kb].size(), side), left)
                        &&& c.far_x == far
                    },
                }
            }
        },
    }
}

/// How much the views of B disagree, and B's corner noise: the relative scale
/// uncertainty of the closure.
fn closure_uncertainty<T: Fn(Double, Double) -> (Double, Double)>(
    turn: &T,
    side_mm: Double,
    w_chain: &Vec<Mat3>,
    detections: &Vec<Vec<DetectedMarker>>,
    kb: usize,
    corner: &Point,
    blur_px: Double,
) -> (rel: Double)
    requires
        is_turn(turn),
        w_chain@.len() == detections@.len(),
        kb < w_chain@.len(),
        w_chain@.len() < 0x20_0000_0000_0000,
    ensures
        rel == scale_uncertainty(
            noise_floor(side_mm, closure_mm_per_px(w_chain@[kb as int], *corner), blur_px),
            view_scales(turn, side_mm, w_chain@, detections@, detections@.len() as int),
        ),
{
    let one: Double = Double::from_bits(closure::ONE);
    let mm_per_px: Double = match local_mm_per_px(&w_chain[kb], corner) {
        Some(v) => v,
        None => one,
    };
    let penalty: Double = (blur_px / Double::from_bits(closure::TWO)).max(&one);
    let floor: Double = Double::from_bits(closure::CORNER_SIGMA_FLOOR_PX) * mm_per_px * penalty / (
    side_mm * Double::from_bits(closure::SQRT_2));
    let mut scales: Vec<Double> = Vec::new();
    let mut i: usize = 0;
    while i < detections.len()
        invariant
            is_turn(turn),
            w_chain@.len() == detections@.len(),
            w_chain@.len() < 0x20_0000_0000_0000,
            i <= detections@.len(),
            scales@ == view_scales(turn, side_mm, w_chain@, detections@, i as int),
            scales@.len() <= i,
        decreases detections@.len() - i,
    {
        if let Some(v) = scale_in_view(turn, side_mm, &w_chain[i], &detections[i]) {
            scales.push(v);
        }
        i = i + 1;
    }
    if scales.len() >= 2 {
        floor.max(&sample_spread(&scales))
    } else {
        floor
    }
}

/// Close the loop at keyframe `kb`, whose Marker B has the corners `corners` and
/// edges blurred over `blur_px`; `None` when the closure has to be refused.
pub fn close_loop<
    T: Fn(Double, Double) -> (Double, Double),
    P: Fn(Double, Double) -> Double,
>(
    turn: &T,
    power: &P,
    side_mm: Double,
    w_chain: &Vec<Mat3>,
    centres: &Vec<Point>,
    s: &Vec<Double>,
    ka: usize,
    kb: usize,
    detections: &Vec<Vec<DetectedMarker>>,
    corners: &Quad,
    blur_px: Double,
) -> (out: Option<Closed>)
    requires
        closure::are_curves(turn, power),
        w_chain@.len() == detections@.len(),
        centres@.len() == detections@.len(),
        s@.len() == detections@.len(),
        ka < detections@.len(),
        kb < detections@.len(),
        detections@.len() < 0x20_0000_0000_0000,
    ensures
        is_loop_closed(
            turn,
            power,
            side_mm,
            w_chain@,
            centres@,
            s@,
            ka as int,
            kb as int,
            detections@,
            *corners,
            blur_px,
            out,
        ),
        out matches Some(l) ==> l.w_chain@.len() == w_chain@.len(),
{
    proof {
        reveal(is_loop_closed);
    }
    let q: Quad = match back_project(&w_chain[kb], corners) {
        None => {
            return None;
        },
        Some(q) => q,
    };
    let drift: Drift = measure_drift(turn, side_mm, &q);
    if !credible(&drift) {
        return None;
    }
    let posed: Quad = fit_rigid_square(turn, &anchor_corners_mm(side_mm), &q);
    let span: Double = s[kb];
    let corrected: Vec<Mat3> = match redistribute(
        power,
        drift.scale,
        s,
        &span,
        centres,
        ka,
        w_chain,
    ) {
        None => {
            return None;
        },
        Some(w) => w,
    };
    let (residual_mm, far_x) = residual(
        turn,
        side_mm,
        &corrected[kb],
        corners,
        drift.discrepancy_mm,
    );
    let rel: Double = closure_uncertainty(
        turn,
        side_mm,
        &corrected,
        detections,
        kb,
        &posed[0],
        blur_px,
    );
    Some(
        Closed {
            w_chain: corrected,
            closure: Closure {
                keyframe: kb,
                discrepancy_mm: drift.discrepancy_mm,
                residual_mm,
                scale_correction: drift.scale,
            },
            rel,
            ramp: (span.abs().max(&side_mm), residual_mm),
            far_x,
        },
    )
}

/// A closed loop never rests on drift that is not credible.
pub proof fn law_closure_is_credible<
    T: Fn(Double, Double) -> (Double, Double),
    P: Fn(Double, Double) -> Double,
>(
    turn: &T,
    power: &P,
    side: Double,
    chain: Seq<Mat3>,
    centres: Seq<Point>,
    s: Seq<Double>,
    ka: int,
    kb: int,
    detections: Seq<Vec<DetectedMarker>>,
    corners: Quad,
    blur_px: Double,
    closed: Closed,
)
    requires
        is_loop_closed(
            turn,
            power,
            side,
            chain,
            centres,
            s,
            ka,
            kb,
            detections,
            corners,
            blur_px,
            Some(closed),
        ),
    ensures
        !(Double { bits: closure::MAX_CLOSURE_DISCREPANCY_MM }).less(
            closed.closure.discrepancy_mm,
        ),
        !(Double { bits: closure::MAX_CLOSURE_SCALE_DEV }).less(
            (closed.closure.scale_correction - Double { bits: closure::ONE }).size(),
        ),
{
    reveal(is_loop_closed);
}

} // verus!
