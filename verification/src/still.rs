//! The still path: find the Reference Markers of an RGBA frame, estimate the
//! wall-plane homography, and render the Rectified Wall Image.
use vstd::prelude::*;

use crate::detect;
use crate::detect::{detect_markers, DetectedMarker};
use crate::double::Double;
use crate::edge::Point;
use crate::frame;
use crate::frame::grayscale;
use crate::homography::Homography;
use crate::loop_closure;
use crate::rectify;
use crate::rectify::{rectify_markers, StillPlan};
use crate::render;
use crate::render::render;
use crate::sample::Luma;

verus! {

/// A Rectified Wall Image plus its metric metadata.
pub struct Rectified {
    /// RGBA, row-major.
    pub rgba: Vec<u8>,
    pub plan: StillPlan,
}

impl Rectified {
    /// Convert an output pixel position to wall-plane millimetres.
    pub fn px_to_mm(&self, px: Double, py: Double) -> (p: Point)
        ensures
            p == [
                self.plan.extent.min_x + px * self.plan.mm_per_px,
                self.plan.extent.min_y + py * self.plan.mm_per_px,
            ],
    {
        self.plan.px_to_mm(px, py)
    }
}

/// `out` is what a frame with these markers is rectified to.
pub open spec fn is_rectified<T: Fn(Double, Double) -> (Double, Double)>(
    turn: &T,
    rgba: Seq<u8>,
    w: int,
    h: int,
    factor: Double,
    markers: Seq<DetectedMarker>,
    out: Option<Rectified>,
) -> bool {
    match out {
        None => rectify::is_still_plan(turn, markers, w, h, factor, None),
        Some(r) => rectify::is_still_plan(turn, markers, w, h, factor, Some(r.plan))
            && render::is_warp(
            r.rgba@,
            rgba,
            w,
            h,
            r.plan.wall.estimate.h,
            [r.plan.extent.min_x, r.plan.extent.min_y],
            r.plan.mm_per_px,
            r.plan.width as int,
            r.plan.height as int,
        ),
    }
}

/// `out` is what a frame is rectified to, with the markers that its luma plane
/// shows: nothing, whatever it shows, if the factor cannot be one.
pub open spec fn is_rectification<T: Fn(Double, Double) -> (Double, Double)>(
    turn: &T,
    rgba: Seq<u8>,
    w: int,
    h: int,
    factor: Double,
    out: Option<Rectified>,
) -> bool {
    if !rectify::is_factor(factor) {
        out is None
    } else {
        exists|luma: Luma, markers: Seq<DetectedMarker>|
            {
                &&& luma.width == w
                &&& luma.height == h
                &&& frame::is_luma_plane(luma.gray@, rgba)
                &&& #[trigger] detect::are_detected(&luma, markers)
                &&& is_rectified(turn, rgba, w, h, factor, markers, out)
            }
    }
}

/// Rectify a still. `correction_factor` is the session print-scale factor;
/// `turn` gives sine and cosine of the angle of a direction. `None`, if the
/// factor cannot be one, no marker is found, or the wall cannot be estimated.
pub fn rectify_frame<T: Fn(Double, Double) -> (Double, Double)>(
    turn: &T,
    rgba: &[u8],
    width: usize,
    height: usize,
    correction_factor: Double,
) -> (out: Option<Rectified>)
    requires
        rgba@.len() == width * height * 4,
        rectify::is_factor(correction_factor) ==> detect::is_detectable(
            width as int,
            height as int,
        ),
        loop_closure::is_turn(turn),
    ensures
        width < detect::MIN_FRAME_SIDE || height < detect::MIN_FRAME_SIDE ==> out is None,
        is_rectification(turn, rgba@, width as int, height as int, correction_factor, out),
{
    if !(correction_factor.is_finite() && Double::from_bits(0).lt(&correction_factor)) {
        return None;
    }
    let n: usize = rgba.len() / 4;
    assert(n == width * height);
    let mut gray: Vec<u8> = vec![0u8; n];
    grayscale(rgba, gray.as_mut_slice());
    let plane: &[u8] = gray.as_slice();
    let markers: Vec<DetectedMarker> = detect_markers(plane, width, height);
    let ghost luma = Luma { gray: plane, width, height };
    assert(frame::is_luma_plane(luma.gray@, rgba@));
    assert(detect::are_detected(&luma, markers@));
    if width < detect::MIN_FRAME_SIDE || height < detect::MIN_FRAME_SIDE {
        assert(is_rectified(
            turn,
            rgba@,
            width as int,
            height as int,
            correction_factor,
            markers@,
            None,
        ));
        return None;
    }
    proof {
        detect::lemma_searched_sides(width as int, height as int);
    }
    let plan: StillPlan = match rectify_markers(turn, &markers, width, height, correction_factor) {
        None => {
            return None;
        },
        Some(plan) => plan,
    };
    proof {
        assert(plan.width * plan.height * 4 <= 1600 * 1600 * 4) by (nonlinear_arith)
            requires
                0 <= plan.width <= 1600,
                0 <= plan.height <= 1600,
        ;
    }
    let image: Vec<u8> = render(
        rgba,
        width,
        height,
        &Homography(plan.wall.estimate.h),
        &[plan.extent.min_x, plan.extent.min_y],
        &plan.mm_per_px,
        plan.width,
        plan.height,
    );
    Some(Rectified { rgba: image, plan })
}

} // verus!
