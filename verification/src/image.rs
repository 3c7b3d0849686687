//! The Rectified Wall Image that a captured frame gives.
use vstd::prelude::*;

use crate::double::Double;
use crate::still::Rectified;

verus! {

/// A Rectified Wall Image: the captured frame re-projected to fronto-parallel
/// metric coordinates. The metric mapping is `wall_mm = origin_mm + pixel *
/// mm_per_px` on both axes.
pub struct RectifiedWallImage {
    core: Rectified,
}

impl RectifiedWallImage {
    /// What the image was made from.
    pub closed spec fn source(self) -> Rectified {
        self.core
    }

    pub fn from_core(r: Rectified) -> (image: RectifiedWallImage)
        ensures
            image.source() == r,
    {
        RectifiedWallImage { core: r }
    }

    /// The tightly packed RGBA pixels.
    pub fn pixels(&self) -> (rgba: &[u8])
        ensures
            rgba@ == self.source().rgba@,
    {
        self.core.rgba.as_slice()
    }

    pub fn pixels_len(&self) -> (n: usize)
        ensures
            n == self.source().rgba@.len(),
    {
        self.core.rgba.len()
    }

    pub fn width(&self) -> (w: u32)
        ensures
            w == self.source().plan.width as u32,
    {
        self.core.plan.width as u32
    }

    pub fn height(&self) -> (h: u32)
        ensures
            h == self.source().plan.height as u32,
    {
        self.core.plan.height as u32
    }

    /// Millimetres of wall per rectified pixel (isotropic, print-scale correction
    /// already applied).
    pub fn mm_per_px(&self) -> (v: Double)
        ensures
            v == self.source().plan.mm_per_px,
    {
        self.core.plan.mm_per_px
    }

    /// Wall-plane mm coordinate of the image's top-left corner (the anchor
    /// marker's printed top-left corner is the plane origin).
    pub fn origin_x_mm(&self) -> (v: Double)
        ensures
            v == self.source().plan.extent.min_x,
    {
        self.core.plan.extent.min_x
    }

    pub fn origin_y_mm(&self) -> (v: Double)
        ensures
            v == self.source().plan.extent.min_y,
    {
        self.core.plan.extent.min_y
    }

    /// IDs of the Reference Markers used for the estimate, anchor first.
    pub fn marker_ids(&self) -> (ids: Vec<u16>)
        ensures
            ids@ == self.source().plan.wall.marker_ids@,
    {
        let mut ids: Vec<u16> = Vec::new();
        ids.extend_from_slice(self.core.plan.wall.marker_ids.as_slice());
        assert(ids@ =~= self.core.plan.wall.marker_ids@);
        ids
    }

    /// True when a second marker was detected but its constraint was discarded
    /// (bad detection or inconsistent joint fit): the result degraded to
    /// single-marker extrapolation and the page must say so.
    pub fn second_marker_rejected(&self) -> (r: bool)
        ensures
            r == self.source().plan.wall.second_marker_rejected,
    {
        self.core.plan.wall.second_marker_rejected
    }

    /// RMS reprojection error of the marker corners under the estimated
    /// homography, in source-frame pixels.
    pub fn residual_rms_px(&self) -> (v: Double)
        ensures
            v == self.source().plan.wall.estimate.rms,
    {
        self.core.plan.wall.estimate.rms
    }

    /// Worst single-corner reprojection error, source-frame pixels.
    pub fn residual_max_px(&self) -> (v: Double)
        ensures
            v == self.source().plan.wall.estimate.max,
    {
        self.core.plan.wall.estimate.max
    }

    /// Marker-corner correspondences fed to the estimator (4 or 8).
    pub fn points_used(&self) -> (n: u32)
        ensures
            n == self.source().plan.wall.estimate.residuals@.len() as u32,
    {
        self.core.plan.wall.estimate.residuals.len() as u32
    }

    /// Correspondences the final model kept as inliers.
    pub fn inliers(&self) -> (n: u32)
        ensures
            n == self.source().plan.wall.estimate.inliers as u32,
    {
        self.core.plan.wall.estimate.inliers as u32
    }
}

} // verus!
