//! Capture on the library's own arithmetic: what is measured of a frame before
//! the recorder considers it.
use vstd::prelude::*;

use crate::analysis;
use crate::analysis::Analysis;
use crate::coach;
use crate::detect;
use crate::detect::{detect_markers, DetectedMarker};
use crate::double::Double;
use crate::overlap;
use crate::overlap::{mean_luma, thumb_shift};
use crate::pan;
use crate::pan::{FrameDisposition, Observation, PanCore};
use crate::sample;
use crate::sample::Luma;
use crate::shift;
use crate::shift::Shift;

verus! {

/// The IDs of markers.
pub open spec fn ids_of(markers: Seq<DetectedMarker>) -> Seq<u16> {
    markers.map_values(|m: DetectedMarker| m.id)
}

/// `sighted` holds the IDs of the markers that a luma plane shows.
pub open spec fn are_sighted(gray: Seq<u8>, w: usize, h: usize, sighted: Seq<u16>) -> bool {
    exists|markers: Seq<DetectedMarker>| #[trigger]
        detect::are_detected(&sample::luma_of(gray, w, h), markers) && sighted == ids_of(markers)
}

/// `seen` is what capture measures of a frame: its shift against the previous one,
/// how far that is, how bright the frame is, and which markers it shows, where
/// that is due.
pub open spec fn is_seen<Hypot: Fn(Double, Double) -> Double>(
    hypot: &Hypot,
    core: PanCore,
    frame: Analysis,
    seen: Observation,
) -> bool {
    let (tw, th) = (
        analysis::thumb_side(core.width as int),
        analysis::thumb_side(core.height as int),
    );
    &&& match core.prev_thumb {
        None => seen.shift is None,
        Some(prev) => shift::is_shift(
            overlap::shift_surface(prev, frame.thumb, tw, th),
            seen.shift,
        ),
    }
    &&& match seen.shift {
        None => seen.thumb_px == (Double { bits: 0 }),
        Some(s) => call_ensures(hypot, (s.dx, s.dy), seen.thumb_px),
    }
    &&& seen.mean_luma == overlap::mean_of(frame.thumb)
    &&& if coach::is_due(core.coach.frame_idx, core.width as int, core.height as int) {
        are_sighted(frame.gray@, core.width, core.height, seen.sighted@)
    } else {
        seen.sighted@.len() == 0
    }
}

fn sighted_ids(gray: &[u8], width: usize, height: usize) -> (ids: Vec<u16>)
    requires
        gray@.len() == width * height,
        detect::is_detectable(width as int, height as int),
    ensures
        are_sighted(gray@, width, height, ids@),
{
    let markers: Vec<DetectedMarker> = detect_markers(gray, width, height);
    let mut ids: Vec<u16> = Vec::new();
    let mut k: usize = 0;
    while k < markers.len()
        invariant
            k <= markers@.len(),
            ids@.len() == k,
            forall|i: int| 0 <= i < k ==> #[trigger] ids@[i] == markers@[i].id,
        decreases markers@.len() - k,
    {
        ids.push(markers[k].id);
        k = k + 1;
    }
    proof {
        sample::lemma_luma_of(Luma { gray, width, height });
        assert(ids@ =~= ids_of(markers@));
    }
    ids
}

impl PanCore {
    /// Consider one captured RGBA frame (`width * height * 4` bytes). `hypot` is
    /// the length of a vector.
    pub fn push_frame<Hypot: Fn(Double, Double) -> Double>(
        &mut self,
        hypot: &Hypot,
        rgba: &[u8],
    ) -> (disposition: FrameDisposition)
        requires
            old(self).wf(),
            old(self).coach.frame_idx < u32::MAX,
            rgba@.len() == old(self).width * old(self).height * 4,
            coach::is_due(
                old(self).coach.frame_idx,
                old(self).width as int,
                old(self).height as int,
            ) ==> detect::is_detectable(old(self).width as int, old(self).height as int),
            forall|x: Double, y: Double| call_requires(hypot, (x, y)),
        ensures
            final(self).wf(),
            pan::is_accounted(
                old(self).selection(),
                final(self).selection(),
                rgba@,
                disposition,
            ),
            exists|frame: Analysis, seen: Observation|
                {
                    &&& analysis::is_analysis(
                        frame,
                        rgba@,
                        old(self).width as int,
                        old(self).height as int,
                    )
                    &&& is_seen(hypot, *old(self), frame, seen)
                    &&& #[trigger] pan::is_recorded(
                        *old(self),
                        *final(self),
                        rgba@,
                        frame,
                        seen,
                        disposition,
                    )
                },
    {
        let frame: Analysis = self.analyze(rgba);
        let tw: usize = analysis::thumbnail_side(self.width);
        let th: usize = analysis::thumbnail_side(self.height);
        proof {
            assert(self.width * self.height >= 0) by (nonlinear_arith)
                requires
                    self.width >= 0,
                    self.height >= 0,
            ;
            analysis::lemma_thumb_area(
                self.width as int,
                self.height as int,
                tw as int,
                th as int,
            );
        }
        let moved: Option<Shift> = match &self.prev_thumb {
            None => None,
            Some(prev) => thumb_shift(prev, &frame.thumb, tw, th),
        };
        let thumb_px: Double = match &moved {
            None => Double::from_bits(0),
            Some(s) => hypot(s.dx, s.dy),
        };
        let sighted: Vec<u16> = if self.detection_due() {
            sighted_ids(frame.gray.as_slice(), self.width, self.height)
        } else {
            Vec::new()
        };
        let seen: Observation = Observation {
            shift: moved,
            thumb_px,
            mean_luma: mean_luma(&frame.thumb),
            sighted,
        };
        assert(is_seen(hypot, *self, frame, seen));
        self.record_frame(rgba, frame, seen)
    }
}

} // verus!
