//! Still-frame rectification: detected Reference Marker(s) -> wall-plane
//! homography -> extent and resolution of the Rectified Wall Image.
//!
//! The wall-plane frame is anchored at the first detected marker: its printed
//! top-left corner is the origin, x runs along its top edge (mm), y down its
//! left edge (mm).
use vstd::prelude::*;

use crate::closure;
use crate::closure::{anchor_corners_mm, fit_rigid_square, Quad};
use crate::detect::DetectedMarker;
use crate::distortion::Distortion;
use crate::double;
use crate::double::Double;
use crate::edge::Point;
use crate::estimate;
use crate::estimate::estimate;
use crate::homography::{Estimate, Homography};
use crate::linalg;
use crate::linalg::{mat3_inv, Mat3};
use crate::loop_closure;
use crate::passes;
use crate::render;
use crate::render::{
    frame_corners, mean_marker_side_px, output_resolution, output_side, wall_extent, Extent,
};
use crate::sorting;
use crate::sorting::sort_by_key;

verus! {

/// Side of a printed marker (mm): the bits of 150.0.
pub const MARKER_SIDE: u64 = 0x4062_c000_0000_0000;

/// Largest reprojection error (px) of an inlier: the bits of 3.0.
pub const INLIER_THRESHOLD_PX: u64 = 0x4008_0000_0000_0000;

/// Farthest plausible back-projection (mm): the bits of 12000.0.
pub const MAX_STILL_PROJECTION_MM: u64 = 0x40c7_7000_0000_0000;

/// Rounds of the joint fit.
pub const JOINT_ROUNDS: usize = 10;

/// Fewest inliers of a consistent joint fit, of eight.
pub const MIN_JOINT_INLIERS: usize = 6;

/// Improvement of the RMS (px) below which the joint fit has settled: the bits
/// of 1e-4.
pub const JOINT_SETTLED: u64 = 0x3f1a_36e2_eb1c_432d;

/// Where a marker's corners land on the wall.
pub enum Projection {
    /// A corner lands on the plane at infinity.
    Lost,
    /// A corner lands implausibly far away.
    Far,
    Near(Quad),
}

/// A wall position is implausibly far away.
pub open spec fn is_far(p: (Double, Double)) -> bool {
    let limit = Double { bits: MAX_STILL_PROJECTION_MM };
    limit.less(p.0.size()) || limit.less(p.1.size())
}

/// What the corners from `k` on say of a projection; the first that is lost or
/// far decides.
pub open spec fn projection_from(inv: Mat3, corners: Quad, k: int) -> Projection
    decreases 4 - k,
{
    if k >= 4 {
        Projection::Near(closure::quad_on_wall(inv, corners)->0)
    } else {
        match closure::corner_on_wall(inv, corners[k]) {
            None => Projection::Lost,
            Some(p) => if is_far(p) {
                Projection::Far
            } else {
                projection_from(inv, corners, k + 1)
            },
        }
    }
}

/// Project a marker's corners onto the wall.
fn project(inv: &Mat3, corners: &Quad) -> (p: Projection)
    ensures
        p == projection_from(*inv, *corners, 0),
{
    let limit: Double = Double::from_bits(MAX_STILL_PROJECTION_MM);
    let h: Homography = Homography(*inv);
    let zero: Double = Double::from_bits(0);
    let mut q: Quad = [[zero; 2]; 4];
    let mut k: usize = 0;
    while k < 4
        invariant
            h.0 == *inv,
            limit == (Double { bits: MAX_STILL_PROJECTION_MM }),
            k <= 4,
            projection_from(*inv, *corners, 0) == projection_from(*inv, *corners, k as int),
            forall|i: int|
                0 <= i < k ==> closure::corner_on_wall(*inv, corners[i]) == Some(
                    ((#[trigger] q[i])[0], q[i][1]),
                ),
        decreases 4 - k,
    {
        match h.apply(corners[k][0], corners[k][1]) {
            None => {
                return Projection::Lost;
            },
            Some((x, y)) => {
                if limit.lt(&x.abs()) || limit.lt(&y.abs()) {
                    return Projection::Far;
                }
                q[k] = [x, y];
            },
        }
        k = k + 1;
    }
    proof {
        assert(q[0] == q[0] && q[1] == q[1] && q[2] == q[2] && q[3] == q[3]);
        let full = closure::quad_on_wall(*inv, *corners)->0;
        assert(full[0] =~= q[0]);
        assert(full[1] =~= q[1]);
        assert(full[2] =~= q[2]);
        assert(full[3] =~= q[3]);
        assert(full =~= q);
    }
    Projection::Near(q)
}

/// `est` is the homography that takes the wall square and the posed one to the
/// corners of both markers.
pub open spec fn is_joint_estimate(
    side: Double,
    posed: Quad,
    anchor: Quad,
    second: Quad,
    est: Option<Estimate<Mat3>>,
) -> bool {
    estimate::is_homography(
        closure::square_of(side)@ + posed@,
        anchor@ + second@,
        Double { bits: INLIER_THRESHOLD_PX },
        est,
    )
}

fn estimate_both(
    side_mm: Double,
    posed: &Quad,
    anchor: &Quad,
    second: &Quad,
) -> (est: Option<Estimate<Mat3>>)
    ensures
        is_joint_estimate(side_mm, *posed, *anchor, *second, est),
{
    let w: Quad = anchor_corners_mm(side_mm);
    let s: Vec<Point> = vec![w[0], w[1], w[2], w[3], posed[0], posed[1], posed[2], posed[3]];
    let d: Vec<Point> = vec![
        anchor[0],
        anchor[1],
        anchor[2],
        anchor[3],
        second[0],
        second[1],
        second[2],
        second[3],
    ];
    assert(s@ =~= closure::square_of(side_mm)@ + posed@);
    assert(d@ =~= anchor@ + second@);
    estimate(&s, &d, Double::from_bits(INLIER_THRESHOLD_PX))
}

/// `est` is the homography that takes the wall square to the anchor's corners.
pub open spec fn is_anchor_estimate(
    side: Double,
    corners: Quad,
    est: Option<Estimate<Mat3>>,
) -> bool {
    estimate::is_homography(
        closure::square_of(side)@,
        corners@,
        Double { bits: INLIER_THRESHOLD_PX },
        est,
    )
}

fn estimate_anchor(side_mm: Double, corners: &Quad) -> (est: Option<Estimate<Mat3>>)
    ensures
        is_anchor_estimate(side_mm, *corners, est),
{
    let w: Quad = anchor_corners_mm(side_mm);
    let s: Vec<Point> = vec![w[0], w[1], w[2], w[3]];
    let d: Vec<Point> = vec![corners[0], corners[1], corners[2], corners[3]];
    assert(s@ =~= closure::square_of(side_mm)@);
    assert(d@ =~= corners@);
    estimate(&s, &d, Double::from_bits(INLIER_THRESHOLD_PX))
}

/// How a joint fit ends.
pub enum JointFit {
    /// The current homography cannot be inverted, or loses a corner.
    Lost,
    /// The second marker back-projects implausibly far.
    Implausible,
    /// The best consistent fit, if there was one.
    Settled(Option<Estimate<Mat3>>),
}

/// A fit that replaces the best one so far.
pub open spec fn is_better(best: Option<Estimate<Mat3>>, e: Estimate<Mat3>) -> bool {
    match best {
        None => true,
        Some(b) => e.rms.at_most(b.rms),
    }
}

/// A fit that hardly improves on the best one so far.
pub open spec fn is_settled(best: Option<Estimate<Mat3>>, e: Estimate<Mat3>) -> bool {
    match best {
        None => false,
        Some(b) => (b.rms - e.rms).less(Double { bits: JOINT_SETTLED }),
    }
}

/// `out` is how the joint fit ends from this state, in at most `rounds` more
/// rounds. Each poses the second marker's known-size square on its
/// back-projection, and estimates the homography from both markers.
pub open spec fn is_joint_fit<
    T: Fn(Double, Double) -> (Double, Double),
>(
    turn: &T,
    side: Double,
    anchor: Quad,
    second: Quad,
    current: Mat3,
    best: Option<Estimate<Mat3>>,
    rounds: nat,
    out: JointFit,
) -> bool
    decreases rounds,
{
    if rounds == 0 {
        out == JointFit::Settled(best)
    } else {
        match linalg::inverse_of(current) {
            None => out is Lost,
            Some(inv) => match projection_from(inv, second, 0) {
                Projection::Lost => out is Lost,
                Projection::Far => out is Implausible,
                Projection::Near(q) => exists|est: Option<Estimate<Mat3>>|
                    {
                        &&& #[trigger] is_joint_estimate(
                            side,
                            closure::posed(turn, closure::square_of(side), q),
                            anchor,
                            second,
                            est,
                        )
                        &&& match est {
                            None => out == JointFit::Settled(best),
                            Some(e) => if e.inliers < MIN_JOINT_INLIERS {
                                out == JointFit::Settled(best)
                            } else {
                                let better = is_better(best, e);
                                let next = if better {
                                    Some(e)
                                } else {
                                    best
                                };
                                if is_settled(best, e) {
                                    out == JointFit::Settled(next)
                                } else {
                                    is_joint_fit(
                                        turn,
                                        side,
                                        anchor,
                                        second,
                                        if better {
                                            e.h
                                        } else {
                                            current
                                        },
                                        next,
                                        (rounds - 1) as nat,
                                        out,
                                    )
                                }
                            },
                        }
                    },
            },
        }
    }
}

/// Alternate between posing the second marker and estimating from both, until
/// the joint fit settles. Fixing the pose once from the anchor alone would lock
/// in that estimate's extrapolation error.
fn fit_jointly<
    T: Fn(Double, Double) -> (Double, Double),
>(
    turn: &T,
    side_mm: Double,
    anchor: &Quad,
    second: &Quad,
    current: Mat3,
    best: Option<Estimate<Mat3>>,
    rounds: usize,
) -> (out: JointFit)
    requires
        loop_closure::is_turn(turn),
    ensures
        is_joint_fit(
            turn,
            side_mm,
            *anchor,
            *second,
            current,
            best,
            rounds as nat,
            out,
        ),
    decreases rounds,
{
    if rounds == 0 {
        return JointFit::Settled(best);
    }
    let inv: Mat3 = match mat3_inv(&current) {
        None => {
            return JointFit::Lost;
        },
        Some(inv) => inv,
    };
    let q: Quad = match project(&inv, second) {
        Projection::Lost => {
            return JointFit::Lost;
        },
        Projection::Far => {
            return JointFit::Implausible;
        },
        Projection::Near(q) => q,
    };
    let posed: Quad = fit_rigid_square(turn, &anchor_corners_mm(side_mm), &q);
    let found: Option<Estimate<Mat3>> = estimate_both(
        side_mm,
        &posed,
        anchor,
        second,
    );
    assert(is_joint_estimate(
        side_mm,
        closure::posed(turn, closure::square_of(side_mm), q),
        *anchor,
        *second,
        found,
    ));
    let e: Estimate<Mat3> = match found {
        None => {
            return JointFit::Settled(best);
        },
        Some(e) => e,
    };
    if e.inliers < MIN_JOINT_INLIERS {
        // joint model inconsistent: keep what there is
        return JointFit::Settled(best);
    }
    let (better, settled) = match &best {
        None => (true, false),
        Some(b) => (e.rms.le(&b.rms), (b.rms - e.rms).lt(&Double::from_bits(JOINT_SETTLED))),
    };
    let h: Mat3 = e.h;
    let ghost before = best;
    let ghost given = e;
    let next: Option<Estimate<Mat3>> = if better {
        Some(e)
    } else {
        best
    };
    assert(better == is_better(before, given) && settled == is_settled(before, given));
    if settled {
        return JointFit::Settled(next);
    }
    fit_jointly(
        turn,
        side_mm,
        anchor,
        second,
        if better {
            h
        } else {
            current
        },
        next,
        rounds - 1,
    )
}

/// The wall-plane homography of a still.
pub struct WallEstimate {
    pub estimate: Estimate<Mat3>,
    /// IDs of the markers used, anchor first.
    pub marker_ids: Vec<u16>,
    /// A second marker was detected but its constraint had to be discarded: the
    /// result degraded to single-marker extrapolation.
    pub second_marker_rejected: bool,
}

/// `out` uses the anchor alone.
pub open spec fn uses_anchor(
    out: Option<WallEstimate>,
    est: Estimate<Mat3>,
    anchor: DetectedMarker,
    rejected: bool,
) -> bool {
    &&& out matches Some(w)
    &&& w.estimate == est
    &&& w.marker_ids@ == seq![anchor.id]
    &&& w.second_marker_rejected == rejected
}

/// `out` is the wall-plane homography from the detected markers, the anchor
/// first: its four corners alone, or jointly with the second marker where that
/// is consistent.
pub open spec fn is_wall_estimate<
    T: Fn(Double, Double) -> (Double, Double),
>(
    turn: &T,
    side: Double,
    markers: Seq<DetectedMarker>,
    out: Option<WallEstimate>,
) -> bool {
    if markers.len() == 0 {
        out is None
    } else {
        exists|est: Option<Estimate<Mat3>>|
            {
                &&& #[trigger] is_anchor_estimate(side, markers[0].corners, est)
                &&& match est {
                    None => out is None,
                    Some(e) => if markers.len() == 1 {
                        uses_anchor(out, e, markers[0], false)
                    } else {
                        is_two_marker_estimate(turn, side, markers, e, out)
                    },
                }
            }
    }
}

/// `out` is the wall-plane homography from two markers, the anchor's own being
/// `e`.
pub open spec fn is_two_marker_estimate<
    T: Fn(Double, Double) -> (Double, Double),
>(
    turn: &T,
    side: Double,
    markers: Seq<DetectedMarker>,
    e: Estimate<Mat3>,
    out: Option<WallEstimate>,
) -> bool {
    exists|fit: JointFit|
        {
            &&& #[trigger] is_joint_fit(
                turn,
                side,
                markers[0].corners,
                markers[1].corners,
                e.h,
                None,
                JOINT_ROUNDS as nat,
                fit,
            )
            &&& match fit {
                JointFit::Lost => out is None,
                JointFit::Implausible => uses_anchor(out, e, markers[0], true),
                JointFit::Settled(None) => uses_anchor(out, e, markers[0], true),
                JointFit::Settled(Some(joint)) => {
                    &&& out matches Some(w)
                    &&& w.estimate == joint
                    &&& w.marker_ids@ == seq![markers[0].id, markers[1].id]
                    &&& !w.second_marker_rejected
                },
            }
        }
}

fn anchor_only(est: Estimate<Mat3>, anchor: &DetectedMarker, rejected: bool) -> (out: Option<
    WallEstimate,
>)
    ensures
        uses_anchor(out, est, *anchor, rejected),
{
    let marker_ids: Vec<u16> = vec![anchor.id];
    assert(marker_ids@ =~= seq![anchor.id]);
    Some(WallEstimate { estimate: est, marker_ids, second_marker_rejected: rejected })
}

/// Estimate the wall-plane homography (mm -> px) from the detected markers.
///
/// One marker gives the exact 4-point path. When both Reference Markers are
/// visible, the second marker's wall position is recovered by back-projecting
/// its corners and fitting a rigid square of the known physical side (its size
/// is the extra metric constraint), then all 8 correspondences are estimated
/// from.
pub fn estimate_wall_homography<
    T: Fn(Double, Double) -> (Double, Double),
>(turn: &T, side_mm: Double, markers: &Vec<DetectedMarker>) -> (out: Option<
    WallEstimate,
>)
    requires
        loop_closure::is_turn(turn),
    ensures
        is_wall_estimate(turn, side_mm, markers@, out),
{
    if markers.len() == 0 {
        return None;
    }
    let found: Option<Estimate<Mat3>> = estimate_anchor(side_mm, &markers[0].corners);
    let ghost alone = found;
    proof {
        assert(is_anchor_estimate(side_mm, markers@[0].corners, alone));
    }
    let est: Estimate<Mat3> = match found {
        None => {
            return None;
        },
        Some(e) => e,
    };
    if markers.len() == 1 {
        return anchor_only(est, &markers[0], false);
    }
    let fit: JointFit = fit_jointly(
        turn,
        side_mm,
        &markers[0].corners,
        &markers[1].corners,
        est.h,
        None,
        JOINT_ROUNDS,
    );
    let ghost joint_fit = fit;
    let ghost base = est;
    let out: Option<WallEstimate> = match fit {
        JointFit::Lost => None,
        JointFit::Implausible => anchor_only(est, &markers[0], true),
        JointFit::Settled(None) => anchor_only(est, &markers[0], true),
        JointFit::Settled(Some(joint)) => {
            let marker_ids: Vec<u16> = vec![markers[0].id, markers[1].id];
            assert(marker_ids@ =~= seq![markers@[0].id, markers@[1].id]);
            Some(WallEstimate { estimate: joint, marker_ids, second_marker_rejected: false })
        },
    };
    proof {
        assert(is_joint_fit(
            turn,
            side_mm,
            markers@[0].corners,
            markers@[1].corners,
            base.h,
            None,
            JOINT_ROUNDS as nat,
            joint_fit,
        ));
        assert(is_two_marker_estimate(turn, side_mm, markers@, base, out));
    }
    out
}

/// A factor that a print can have.
pub open spec fn is_factor(f: Double) -> bool {
    f.finite() && (Double { bits: 0 }).less(f)
}

/// Markers by increasing ID: the left one first when both are seen.
pub open spec fn by_id(markers: Seq<DetectedMarker>) -> Seq<DetectedMarker> {
    sorting::sorted(keyed(markers)).map_values(|p: (Double, DetectedMarker)| p.1)
}

/// Markers, each with its ID as a key.
pub open spec fn keyed(markers: Seq<DetectedMarker>) -> Seq<(Double, DetectedMarker)> {
    markers.map_values(|m: DetectedMarker| (double::whole(m.id as int), m))
}

/// Order markers by ID.
pub fn order_markers(markers: &Vec<DetectedMarker>) -> (out: Vec<DetectedMarker>)
    ensures
        out@ == by_id(markers@),
        out@.len() == markers@.len(),
{
    let mut items: Vec<(Double, DetectedMarker)> = Vec::new();
    let mut i: usize = 0;
    while i < markers.len()
        invariant
            i <= markers@.len(),
            items@.len() == i,
            forall|k: int|
                0 <= k < i ==> #[trigger] items@[k] == (
                    double::whole(markers@[k].id as int),
                    markers@[k],
                ),
        decreases markers@.len() - i,
    {
        items.push((Double::from_count(markers[i].id as u64), markers[i]));
        i = i + 1;
    }
    assert(items@ =~= keyed(markers@));
    let ordered: Vec<(Double, DetectedMarker)> = sort_by_key(&items);
    let mut out: Vec<DetectedMarker> = Vec::new();
    let mut k: usize = 0;
    while k < ordered.len()
        invariant
            k <= ordered@.len(),
            out@.len() == k,
            forall|m: int| 0 <= m < k ==> #[trigger] out@[m] == ordered@[m].1,
        decreases ordered@.len() - k,
    {
        out.push(ordered[k].1);
        k = k + 1;
    }
    assert(out@ =~= by_id(markers@));
    out
}

/// Everything about a Rectified Wall Image but its pixels: the metric mapping
/// and the quality numbers.
pub struct StillPlan {
    pub width: usize,
    pub height: usize,
    /// Millimetres of wall per output pixel (isotropic).
    pub mm_per_px: Double,
    pub extent: Extent,
    /// Homography estimate (wall mm -> source px) with residuals, and the
    /// markers it uses.
    pub wall: WallEstimate,
}

impl StillPlan {
    /// Convert an output pixel position to wall-plane millimetres.
    pub fn px_to_mm(&self, px: Double, py: Double) -> (p: Point)
        ensures
            p == [
                self.extent.min_x + px * self.mm_per_px,
                self.extent.min_y + py * self.mm_per_px,
            ],
    {
        [self.extent.min_x + px * self.mm_per_px, self.extent.min_y + py * self.mm_per_px]
    }
}

/// `plan` lays out the still with this wall-plane homography.
pub open spec fn is_laid_out(
    wall: WallEstimate,
    anchor: Quad,
    side: Double,
    w: int,
    h: int,
    plan: Option<StillPlan>,
) -> bool {
    match render::extent_of(
        seq![wall.estimate.h],
        render::frame_quad(passes::lens_at(w, h, Double { bits: 0 }), w, h),
        Double { bits: render::MAX_EXTENT_MM },
    ) {
        None => plan is None,
        Some(e) => {
            let max = render::MAX_OUTPUT_PX as int;
            let mm_per_px = render::resolution(e, side, render::mean_side(anchor), max, max);
            &&& plan matches Some(p)
            &&& p.extent == e
            &&& p.mm_per_px == mm_per_px
            &&& p.wall == wall
            &&& render::is_output_side(e.max_x - e.min_x, mm_per_px, max, p.width as int)
            &&& render::is_output_side(e.max_y - e.min_y, mm_per_px, max, p.height as int)
        },
    }
}

/// `plan` is what a still with these markers is rectified to. The marker's true
/// side is its nominal side times the print-scale factor.
pub open spec fn is_still_plan<
    T: Fn(Double, Double) -> (Double, Double),
>(
    turn: &T,
    markers: Seq<DetectedMarker>,
    w: int,
    h: int,
    factor: Double,
    plan: Option<StillPlan>,
) -> bool {
    let side = Double { bits: MARKER_SIDE } * factor;
    let ordered = by_id(markers);
    if !is_factor(factor) || markers.len() == 0 {
        plan is None
    } else {
        exists|wall: Option<WallEstimate>|
            {
                &&& #[trigger] is_wall_estimate(
                    turn,
                    Double { bits: MARKER_SIDE } * factor,
                    by_id(markers),
                    wall,
                )
                &&& match wall {
                    None => plan is None,
                    Some(e) => is_laid_out(e, ordered[0].corners, side, w, h, plan),
                }
            }
    }
}

fn lay_out(
    wall: WallEstimate,
    anchor: &Quad,
    side_mm: Double,
    width: usize,
    height: usize,
) -> (plan: Option<StillPlan>)
    requires
        width < 0x20_0000_0000_0000,
        height < 0x20_0000_0000_0000,
    ensures
        is_laid_out(wall, *anchor, side_mm, width as int, height as int, plan),
        plan matches Some(p) ==> 1 <= p.width <= render::MAX_OUTPUT_PX && 1 <= p.height
            <= render::MAX_OUTPUT_PX,
{
    let none: Distortion = Distortion::none(width, height);
    assert(none == passes::lens_at(width as int, height as int, Double { bits: 0 }));
    let corners: Quad = frame_corners(&none, width, height);
    let chain: Vec<Mat3> = vec![wall.estimate.h];
    assert(chain@ =~= seq![wall.estimate.h]);
    let e: Extent = match wall_extent(
        &chain,
        &corners,
        &Double::from_bits(render::MAX_EXTENT_MM),
    ) {
        None => {
            return None;
        },
        Some(e) => e,
    };
    let mm_per_px: Double = output_resolution(
        &e,
        &side_mm,
        &mean_marker_side_px(anchor),
        render::MAX_OUTPUT_PX,
        render::MAX_OUTPUT_PX,
    );
    let out_w: usize = output_side(&(e.max_x - e.min_x), &mm_per_px, render::MAX_OUTPUT_PX);
    let out_h: usize = output_side(&(e.max_y - e.min_y), &mm_per_px, render::MAX_OUTPUT_PX);
    Some(StillPlan { width: out_w, height: out_h, mm_per_px, extent: e, wall })
}

/// Rectify a still with these markers: estimate the wall-plane homography and lay
/// out the Rectified Wall Image. `factor` is the session print-scale factor.
pub fn rectify_markers<
    T: Fn(Double, Double) -> (Double, Double),
>(
    turn: &T,
    markers: &Vec<DetectedMarker>,
    width: usize,
    height: usize,
    factor: Double,
) -> (plan: Option<StillPlan>)
    requires
        loop_closure::is_turn(turn),
        width < 0x20_0000_0000_0000,
        height < 0x20_0000_0000_0000,
    ensures
        is_still_plan(
            turn,
            markers@,
            width as int,
            height as int,
            factor,
            plan,
        ),
        plan matches Some(p) ==> 1 <= p.width <= render::MAX_OUTPUT_PX && 1 <= p.height
            <= render::MAX_OUTPUT_PX,
{
    if !(factor.is_finite() && Double::from_bits(0).lt(&factor)) || markers.len() == 0 {
        return None;
    }
    let ordered: Vec<DetectedMarker> = order_markers(markers);
    let side_mm: Double = Double::from_bits(MARKER_SIDE) * factor;
    let found: Option<WallEstimate> = estimate_wall_homography(turn, side_mm, &ordered);
    let ghost estimated = found;
    proof {
        assert(is_wall_estimate(
            turn,
            Double { bits: MARKER_SIDE } * factor,
            by_id(markers@),
            estimated,
        ));
    }
    match found {
        None => None,
        Some(wall) => lay_out(wall, &ordered[0].corners, side_mm, width, height),
    }
}

/// A second marker is either used, or reported as rejected; never silently
/// dropped.
pub proof fn law_second_marker_is_accounted_for<
    T: Fn(Double, Double) -> (Double, Double),
>(
    turn: &T,
    side: Double,
    markers: Seq<DetectedMarker>,
    wall: WallEstimate,
)
    requires
        markers.len() >= 2,
        is_wall_estimate(turn, side, markers, Some(wall)),
    ensures
        wall.second_marker_rejected <==> wall.marker_ids@.len() == 1,
        !wall.second_marker_rejected ==> wall.marker_ids@ == seq![markers[0].id, markers[1].id],
{
}

} // verus!
