//! Recording a pan: keyframe selection during capture, and what the recording
//! amounts to when it stops.
//!
//! Frame-to-frame translation is accumulated into an overlap estimate with the
//! last kept keyframe. Frames are buffered as the *sharpest candidate* while
//! overlap sits in the candidate band, and the candidate is committed as a
//! keyframe when overlap drops below the keep threshold. Only kept keyframes
//! (capped at [`MAX_KEYFRAMES`]) retain full pixels. A long untrackable streak
//! marks the pan's continuity as broken; if keyframes later commit beyond the
//! gap, the recording ends in [`PanError::TrackingLost`] instead of silently
//! chaining across it.
use vstd::prelude::*;

use crate::analysis;
use crate::analysis::Analysis;
use crate::coach::{CoachMotion, CoachState, CoachStatus, Thumb};
use crate::double;
use crate::double::Double;
use crate::shift::Shift;
use crate::text;
use crate::text::append_decimal;

verus! {

/// Hard cap on kept keyframes: bounds peak memory.
pub const MAX_KEYFRAMES: usize = 30;

/// Commit the pending candidate when overlap with the last keyframe falls
/// below this fraction: the bits of 0.60.
pub const KEEP_OVERLAP: u64 = 0x3fe3_3333_3333_3333;

/// Start collecting sharpest-candidate frames below this overlap: the bits of
/// 0.85.
pub const CANDIDATE_OVERLAP: u64 = 0x3feb_3333_3333_3333;

/// Minimum score for the thumbnail shift to be trusted: the bits of 0.35.
pub const MIN_SHIFT_SCORE: u64 = 0x3fd6_6666_6666_6666;

/// Score above which a zero shift is a repeated camera frame: the bits of
/// 0.999.
pub const REPEAT_SCORE: u64 = 0x3fef_f7ce_d916_872b;

/// Consecutive untrackable frames after which the pan's continuity is
/// considered broken (if keyframes are later committed beyond the gap).
pub const LOST_TRACK_FRAMES: usize = 10;

/// The bits of 1.0.
pub const ONE: u64 = 0x3ff0_0000_0000_0000;

/// The bits of 8.0, the thumbnail downscale factor.
pub const THUMB_DIV: u64 = 0x4020_0000_0000_0000;

/// Frame disposition returned by [`PanCore::push_frame`].
#[derive(Clone, Copy, Debug, PartialEq, Eq, Structural)]
pub enum FrameDisposition {
    /// Committed as a keyframe (full pixels retained).
    Kept,
    /// Discarded (overlap still high, untrackable content, or not sharper than the
    /// buffered candidate).
    Skipped,
    /// Buffered as the current sharpest candidate for the next keyframe.
    Candidate,
    /// Keyframe cap reached; frame discarded and the pan flagged truncated.
    CapReached,
}

impl FrameDisposition {
    /// The disposition's number on the capture page.
    pub fn code(&self) -> (n: u8)
        ensures
            n == (match *self {
                FrameDisposition::Kept => 0u8,
                FrameDisposition::Skipped => 1u8,
                FrameDisposition::Candidate => 2u8,
                FrameDisposition::CapReached => 3u8,
            }),
    {
        match *self {
            FrameDisposition::Kept => 0,
            FrameDisposition::Skipped => 1,
            FrameDisposition::Candidate => 2,
            FrameDisposition::CapReached => 3,
        }
    }
}

/// A retained frame.
pub struct Keyframe {
    pub rgba: Vec<u8>,
    pub gray: Vec<u8>,
    pub sharpness: Double,
    /// Accumulated full-resolution px shift from the previous keyframe,
    /// measured incrementally at capture time (seeds the feature matcher).
    pub shift_from_prev: (Double, Double),
}

impl Keyframe {
    /// The frame is this large.
    pub open spec fn fits(self, w: int, h: int) -> bool {
        &&& self.rgba@.len() == w * h * 4
        &&& self.gray@.len() == w * h
    }
}

/// What a retained frame holds.
#[verifier::ext_equal]
pub struct Kept {
    pub rgba: Seq<u8>,
    pub gray: Seq<u8>,
    pub sharpness: Double,
    pub shift: (Double, Double),
}

impl Keyframe {
    pub open spec fn held(self) -> Kept {
        Kept {
            rgba: self.rgba@,
            gray: self.gray@,
            sharpness: self.sharpness,
            shift: self.shift_from_prev,
        }
    }
}

/// The state of keyframe selection.
#[verifier::ext_equal]
pub struct Selection {
    pub keyframes: Seq<Kept>,
    /// The sharpest candidate and its accumulated shift from the last keyframe.
    pub candidate: Option<(Kept, (Double, Double))>,
    /// Accumulated thumb-px shift: last kept keyframe -> previous frame.
    pub acc: (Double, Double),
    pub lost_streak: int,
    pub pending_gap: bool,
    pub broken_after: Option<int>,
    pub truncated: bool,
}

/// A shift that is good enough to track by.
pub open spec fn is_tracked(shift: Option<Shift>) -> bool {
    shift matches Some(s) && (Double { bits: MIN_SHIFT_SCORE }).at_most(s.score)
}

/// Share of a side that an accumulated shift has moved out of view.
pub open spec fn moved_out(acc: Double, side: int) -> Double {
    double::quotient(
        double::product(double::absolute(acc), Double { bits: THUMB_DIV }),
        double::whole(side),
    )
}

/// Overlap with the last keyframe after an accumulated shift.
pub open spec fn overlap(acc: (Double, Double), w: int, h: int) -> Double {
    double::difference(
        Double { bits: ONE },
        double::larger(moved_out(acc.0, w), moved_out(acc.1, h)),
    )
}

/// A thumb-px shift in full-resolution px.
pub open spec fn full_px(acc: (Double, Double)) -> (Double, Double) {
    (
        double::product(acc.0, Double { bits: THUMB_DIV }),
        double::product(acc.1, Double { bits: THUMB_DIV }),
    )
}

pub open spec fn zero_shift() -> (Double, Double) {
    (Double { bits: 0 }, Double { bits: 0 })
}

impl Selection {
    /// Nothing recorded yet.
    pub open spec fn initial() -> Selection {
        Selection {
            keyframes: Seq::empty(),
            candidate: None,
            acc: zero_shift(),
            lost_streak: 0,
            pending_gap: false,
            broken_after: None,
            truncated: false,
        }
    }

    /// After a frame that could not be tracked.
    pub open spec fn after_lost(self) -> Selection {
        Selection {
            lost_streak: self.lost_streak + 1,
            pending_gap: self.pending_gap || self.lost_streak + 1 >= LOST_TRACK_FRAMES,
            ..self
        }
    }

    /// Tracking goes on with an accumulated shift.
    pub open spec fn tracking(self, acc: (Double, Double)) -> Selection {
        Selection { lost_streak: 0, acc, ..self }
    }

    /// Where continuity broke, once another keyframe is committed.
    pub open spec fn break_at(self) -> Option<int> {
        if self.pending_gap && self.broken_after is None {
            Some(self.keyframes.len() - 1)
        } else {
            self.broken_after
        }
    }

    /// After a tracked frame that overlaps too little with the last keyframe.
    pub open spec fn after_commit(self, frame: Kept) -> Selection {
        match self.candidate {
            // The candidate becomes the last keyframe, the frame the next
            // candidate.
            Some((cand, cand_acc)) => {
                let acc = (
                    double::difference(self.acc.0, cand_acc.0),
                    double::difference(self.acc.1, cand_acc.1),
                );
                Selection {
                    keyframes: self.keyframes.push(cand),
                    candidate: Some((Kept { shift: full_px(acc), ..frame }, acc)),
                    acc,
                    broken_after: self.break_at(),
                    ..self
                }
            },
            None => Selection {
                keyframes: self.keyframes.push(Kept { shift: full_px(self.acc), ..frame }),
                acc: zero_shift(),
                broken_after: self.break_at(),
                ..self
            },
        }
    }

    /// Whether a frame is sharper than the buffered candidate, if there is one.
    pub open spec fn is_sharpest(self, frame: Kept) -> bool {
        match self.candidate {
            Some((cand, _)) => cand.sharpness.less(frame.sharpness),
            None => true,
        }
    }

    /// After a tracked frame in the candidate band.
    pub open spec fn after_candidate(self, frame: Kept) -> Selection {
        if self.is_sharpest(frame) {
            Selection {
                candidate: Some((Kept { shift: full_px(self.acc), ..frame }, self.acc)),
                ..self
            }
        } else {
            self
        }
    }

    /// One captured frame: what becomes of the selection, and of the frame.
    pub open spec fn recorded(self, w: int, h: int, frame: Kept, shift: Option<Shift>) -> (
        Selection,
        FrameDisposition,
    ) {
        if self.keyframes.len() == 0 {
            (
                Selection {
                    keyframes: self.keyframes.push(Kept { shift: zero_shift(), ..frame }),
                    acc: zero_shift(),
                    ..self
                },
                FrameDisposition::Kept,
            )
        } else if !is_tracked(shift) {
            (self.after_lost(), FrameDisposition::Skipped)
        } else {
            let acc = (
                double::sum(self.acc.0, shift->0.dx),
                double::sum(self.acc.1, shift->0.dy),
            );
            let next = self.tracking(acc);
            if overlap(acc, w, h).less(Double { bits: KEEP_OVERLAP }) {
                if self.keyframes.len() >= MAX_KEYFRAMES {
                    (
                        Selection { candidate: None, truncated: true, ..next },
                        FrameDisposition::CapReached,
                    )
                } else {
                    (next.after_commit(frame), FrameDisposition::Kept)
                }
            } else if overlap(acc, w, h).less(Double { bits: CANDIDATE_OVERLAP }) {
                (
                    next.after_candidate(frame),
                    if next.is_sharpest(frame) {
                        FrameDisposition::Candidate
                    } else {
                        FrameDisposition::Skipped
                    },
                )
            } else {
                (next, FrameDisposition::Skipped)
            }
        }
    }

    /// What holds of every selection.
    pub open spec fn wf(self) -> bool {
        &&& self.keyframes.len() <= MAX_KEYFRAMES
        &&& self.lost_streak >= 0
        &&& self.candidate is Some ==> self.keyframes.len() > 0
        &&& self.broken_after matches Some(k) ==> 0 <= k && k + 1 < self.keyframes.len()
        &&& self.broken_after is Some ==> self.pending_gap
    }
}

/// What holds of a recording keeps holding: the keyframe cap, and that a break
/// lies between two keyframes. Kept frames are never dropped or changed, a
/// gap, the first break and the truncation flag stick.
pub proof fn law_recording_is_monotone(
    sel: Selection,
    w: int,
    h: int,
    frame: Kept,
    shift: Option<Shift>,
)
    requires
        sel.wf(),
    ensures
        ({
            let next = sel.recorded(w, h, frame, shift).0;
            &&& next.wf()
            &&& sel.keyframes.is_prefix_of(next.keyframes)
            &&& sel.pending_gap ==> next.pending_gap
            &&& sel.truncated ==> next.truncated
            &&& sel.broken_after is Some ==> next.broken_after == sel.broken_after
        }),
{
    let next = sel.recorded(w, h, frame, shift).0;
    assert(sel.keyframes.is_prefix_of(next.keyframes)) by {
        assert(forall|i: int| 0 <= i < sel.keyframes.len()
            ==> next.keyframes[i] == sel.keyframes[i]);
        assert(sel.keyframes =~= next.keyframes.subrange(0, sel.keyframes.len() as int));
    }
}

/// The disposition tells what became of a frame. Only a kept frame adds a keyframe,
/// exactly one; a candidate is the frame that is buffered; past the cap the recording
/// is flagged truncated. That flag and a break of continuity stick.
pub proof fn law_disposition_accounts_for_frame(
    sel: Selection,
    w: int,
    h: int,
    frame: Kept,
    shift: Option<Shift>,
)
    requires
        sel.wf(),
    ensures
        ({
            let (next, disposition) = sel.recorded(w, h, frame, shift);
            is_accounted(sel, next, frame.rgba, disposition)
        }),
{
}

/// What a disposition says of the selection before and after a frame.
pub open spec fn is_accounted(
    before: Selection,
    after: Selection,
    rgba: Seq<u8>,
    disposition: FrameDisposition,
) -> bool {
    &&& after.keyframes.len() <= MAX_KEYFRAMES
    &&& before.truncated ==> after.truncated
    &&& before.broken_after is Some ==> after.broken_after == before.broken_after
    &&& match disposition {
        FrameDisposition::Kept => after.keyframes.len() == before.keyframes.len() + 1,
        FrameDisposition::Skipped => {
            &&& after.keyframes == before.keyframes
            &&& after.candidate == before.candidate
        },
        FrameDisposition::Candidate => {
            &&& after.keyframes == before.keyframes
            &&& after.candidate matches Some((k, _)) && k.rgba == rgba
        },
        FrameDisposition::CapReached => {
            &&& after.keyframes == before.keyframes
            &&& after.keyframes.len() == MAX_KEYFRAMES
            &&& after.truncated
        },
    }
}

/// A keyframe committed beyond an untrackable gap breaks the chain there.
pub proof fn law_commit_beyond_gap_breaks_chain(
    sel: Selection,
    w: int,
    h: int,
    frame: Kept,
    shift: Option<Shift>,
)
    requires
        sel.wf(),
        sel.pending_gap,
        sel.recorded(w, h, frame, shift).0.keyframes.len() > sel.keyframes.len() > 0,
    ensures
        sel.recorded(w, h, frame, shift).0.broken_after is Some,
{
}

impl Selection {
    /// When recording stops, a trailing candidate extends coverage: it is
    /// committed, unless its accumulated shift spans an untrackable gap (it is
    /// dropped) or the cap is reached (it is dropped, and the pan truncated).
    pub open spec fn stopped(self) -> Selection {
        match self.candidate {
            None => self,
            Some((cand, _)) => if self.pending_gap {
                Selection { candidate: None, ..self }
            } else if self.keyframes.len() < MAX_KEYFRAMES {
                Selection { candidate: None, keyframes: self.keyframes.push(cand), ..self }
            } else {
                Selection { candidate: None, truncated: true, ..self }
            },
        }
    }
}

/// A print-scale factor that metric math can use.
pub open spec fn is_factor(factor: Double) -> bool {
    factor.finite() && factor.value() > 0
}

/// Failure modes of the pan pipeline. Every variant carries enough context for
/// the capture page to tell the Homeowner what to do differently.
#[derive(Clone, Copy, Debug, PartialEq, Eq, Structural)]
pub enum PanError {
    InvalidCorrectionFactor,
    NoKeyframes,
    /// Marker A was not detected in any keyframe: the chain has no anchor.
    AnchorMarkerNotFound,
    /// Tracking between two consecutive keyframes produced too few reliable
    /// correspondences: the chain is broken at this segment.
    WeakSegment { from_keyframe: usize, to_keyframe: usize, matches: usize, inliers: usize },
    /// Tracking was lost mid-pan and later keyframes sit beyond the gap: the
    /// chain cannot connect them.
    TrackingLost { after_keyframe: usize },
    /// The anchor marker's homography could not be estimated.
    AnchorEstimateFailed,
    /// The stitched output extent degenerated (chain mapped everything to
    /// implausible wall coordinates).
    DegenerateExtent,
}

/// What the Homeowner is told.
pub open spec fn message_of(error: PanError) -> Seq<char> {
    match error {
        PanError::InvalidCorrectionFactor => "invalid print-scale correction factor"@,
        PanError::NoKeyframes => "no keyframes were captured during the pan"@,
        PanError::AnchorMarkerNotFound =>
            "Reference Marker A was never seen: start the pan with the whole left marker in view"@,
        PanError::WeakSegment { from_keyframe, to_keyframe, matches, inliers } =>
            "tracking failed between keyframe "@ + text::decimal(from_keyframe as int) + " and "@
            + text::decimal(to_keyframe as int) + " ("@ + text::decimal(matches as int)
            + " matches, "@ + text::decimal(inliers as int)
            + " agreeing): pan more slowly and steadily across that part of the wall"@,
        PanError::TrackingLost { after_keyframe } =>
            "tracking was lost after keyframe "@ + text::decimal(after_keyframe as int)
            + " (the camera moved too fast or that stretch of wall had nothing to track): re-record the pan, moving slowly and steadily"@,
        PanError::AnchorEstimateFailed =>
            "Reference Marker A was seen but its geometry could not be estimated"@,
        PanError::DegenerateExtent => "the tracked pan did not produce a usable wall extent"@,
    }
}

impl PanError {
    /// What to tell the Homeowner.
    pub fn message(&self) -> (m: String)
        ensures
            m@ == message_of(*self),
    {
        match *self {
            PanError::InvalidCorrectionFactor => String::from_str(
                "invalid print-scale correction factor",
            ),
            PanError::NoKeyframes => String::from_str("no keyframes were captured during the pan"),
            PanError::AnchorMarkerNotFound => String::from_str(
                "Reference Marker A was never seen: start the pan with the whole left marker in view",
            ),
            PanError::WeakSegment { from_keyframe, to_keyframe, matches, inliers } => {
                let mut m: String = String::from_str("tracking failed between keyframe ");
                append_decimal(&mut m, from_keyframe as u64);
                m.append(" and ");
                append_decimal(&mut m, to_keyframe as u64);
                m.append(" (");
                append_decimal(&mut m, matches as u64);
                m.append(" matches, ");
                append_decimal(&mut m, inliers as u64);
                m.append(" agreeing): pan more slowly and steadily across that part of the wall");
                m
            },
            PanError::TrackingLost { after_keyframe } => {
                let mut m: String = String::from_str("tracking was lost after keyframe ");
                append_decimal(&mut m, after_keyframe as u64);
                m.append(
                    " (the camera moved too fast or that stretch of wall had nothing to track): re-record the pan, moving slowly and steadily",
                );
                m
            },
            PanError::AnchorEstimateFailed => String::from_str(
                "Reference Marker A was seen but its geometry could not be estimated",
            ),
            PanError::DegenerateExtent => String::from_str(
                "the tracked pan did not produce a usable wall extent",
            ),
        }
    }
}

/// What capture measured of a frame beside its analysis.
pub struct Observation {
    /// Shift of the frame against the previous one, if one could be measured.
    pub shift: Option<Shift>,
    /// Length of that shift (thumb px).
    pub thumb_px: Double,
    /// Mean thumbnail luma.
    pub mean_luma: Double,
    /// IDs of the markers found, on frames that detection is due on.
    pub sighted: Vec<u16>,
}

/// A repeated camera frame: a perfect-correlation zero shift.
pub open spec fn is_repeat(s: Shift) -> bool {
    &&& s.dx.same(Double { bits: 0 })
    &&& s.dy.same(Double { bits: 0 })
    &&& (Double { bits: REPEAT_SCORE }).less(s.score)
}

/// What the coach sees of a frame's motion.
pub open spec fn motion_of(first: bool, seen: Observation) -> CoachMotion {
    if first {
        CoachMotion::FirstFrame
    } else if !is_tracked(seen.shift) {
        CoachMotion::Untracked
    } else if is_repeat(seen.shift->0) {
        CoachMotion::Duplicate
    } else {
        CoachMotion::Moved { thumb_px: seen.thumb_px }
    }
}

/// Incremental pan recorder: feed every captured frame, it decides what to
/// keep.
///
/// Overlap is estimated by accumulating small frame-to-frame thumbnail shifts
/// rather than one large-window correlation against the last keyframe: walls
/// carry periodic texture that aliases a wide correlation search, while the
/// true inter-frame motion is always small.
pub struct PanCore {
    pub width: usize,
    pub height: usize,
    pub keyframes: Vec<Keyframe>,
    /// Pending sharpest candidate plus its accumulated thumb shift from the
    /// last kept keyframe.
    pub candidate: Option<(Keyframe, (Double, Double))>,
    /// Thumbnail of the previous frame.
    pub prev_thumb: Option<Thumb>,
    /// Accumulated thumb-px shift: last kept keyframe -> previous frame.
    pub acc_shift: (Double, Double),
    /// Consecutive frames whose shift could not be tracked.
    pub lost_streak: usize,
    /// A lost streak reached [`LOST_TRACK_FRAMES`]; if a keyframe commits
    /// after this, the chain is broken at that gap.
    pub pending_gap: bool,
    /// Keyframe index after which continuity broke (sticky, first gap).
    pub broken_after: Option<usize>,
    pub truncated: bool,
    /// Live-coaching state: observational only.
    pub coach: CoachState,
}

/// What the kept frames hold.
pub open spec fn held_all(keyframes: Seq<Keyframe>) -> Seq<Kept> {
    keyframes.map_values(|k: Keyframe| k.held())
}

/// `after` is a recording that has considered one more frame: its analysis, and
/// what else capture measured of it.
pub open spec fn is_recorded(
    before: PanCore,
    after: PanCore,
    rgba: Seq<u8>,
    frame: Analysis,
    seen: Observation,
    disposition: FrameDisposition,
) -> bool {
    &&& after.width == before.width
    &&& after.height == before.height
    &&& (after.selection(), disposition) == before.selection().recorded(
        before.width as int,
        before.height as int,
        Kept { rgba, gray: frame.gray@, sharpness: frame.sharpness, shift: zero_shift() },
        seen.shift,
    )
    &&& after.prev_thumb == Some(frame.thumb)
    &&& crate::coach::is_observed(
        before.coach,
        after.coach,
        frame.thumb,
        seen.mean_luma,
        before.width as int,
        before.height as int,
        seen.sighted@,
        motion_of(before.keyframes@.len() == 0, seen),
    )
}

/// `after` is what a recording is once it is stopped; a factor that cannot be one
/// leaves it as it is.
pub open spec fn is_stopped(before: PanCore, after: PanCore, factor: Double) -> bool {
    if is_factor(factor) {
        &&& after.selection() == before.selection().stopped()
        &&& after.coach == before.coach
        &&& after.width == before.width
        &&& after.height == before.height
        &&& after.prev_thumb == before.prev_thumb
    } else {
        after == before
    }
}

/// Why a stopped recording cannot be processed, if it cannot.
pub open spec fn refusal(core: PanCore, factor: Double) -> Option<PanError> {
    if !is_factor(factor) {
        Some(PanError::InvalidCorrectionFactor)
    } else if core.keyframes@.len() == 0 {
        Some(PanError::NoKeyframes)
    } else {
        match core.broken_after {
            Some(k) => Some(PanError::TrackingLost { after_keyframe: k }),
            None => None,
        }
    }
}

impl PanCore {
    /// The state of keyframe selection.
    pub open spec fn selection(self) -> Selection {
        Selection {
            keyframes: held_all(self.keyframes@),
            candidate: match self.candidate {
                Some((k, acc)) => Some((k.held(), acc)),
                None => None,
            },
            acc: self.acc_shift,
            lost_streak: self.lost_streak as int,
            pending_gap: self.pending_gap,
            broken_after: match self.broken_after {
                Some(k) => Some(k as int),
                None => None,
            },
            truncated: self.truncated,
        }
    }

    pub open spec fn wf(self) -> bool {
        &&& self.selection().wf()
        &&& self.coach.wf()
        &&& self.lost_streak <= self.coach.frame_idx
        &&& self.width <= u32::MAX
        &&& self.height <= u32::MAX
        &&& self.width * self.height <= u32::MAX
        &&& self.width * self.height * 4 <= usize::MAX
        &&& forall|i: int|
            0 <= i < self.keyframes@.len() ==> (#[trigger] self.keyframes@[i]).fits(
                self.width as int,
                self.height as int,
            )
        &&& self.candidate matches Some((k, _)) ==> k.fits(self.width as int, self.height as int)
        &&& self.prev_thumb matches Some(t) ==> t.sums@.len() == analysis::thumb_side(
            self.width as int,
        ) * analysis::thumb_side(self.height as int)
    }

    pub fn new(width: usize, height: usize) -> (core: PanCore)
        requires
            width <= u32::MAX,
            height <= u32::MAX,
            width * height <= u32::MAX,
            width * height * 4 <= usize::MAX,
        ensures
            core.wf(),
            core.width == width,
            core.height == height,
            core.selection() == Selection::initial(),
            core.prev_thumb is None,
            core.coach == crate::coach::unobserved(),
    {
        let core = PanCore {
            width,
            height,
            keyframes: Vec::new(),
            candidate: None,
            prev_thumb: None,
            acc_shift: (Double::from_bits(0), Double::from_bits(0)),
            lost_streak: 0,
            pending_gap: false,
            broken_after: None,
            truncated: false,
            coach: CoachState::new(),
        };
        assert(core.selection().keyframes =~= Seq::<Kept>::empty());
        core
    }

    pub fn keyframe_count(&self) -> (n: usize)
        ensures
            n == self.selection().keyframes.len(),
    {
        self.keyframes.len()
    }

    /// Live-coaching status as of the last pushed frame.
    pub fn coach_status(&self) -> (s: CoachStatus)
        requires
            self.wf(),
        ensures
            crate::coach::is_status(self.coach, s),
    {
        self.coach.status()
    }

    pub fn truncated(&self) -> (t: bool)
        ensures
            t == self.selection().truncated,
    {
        self.truncated
    }

    /// True when it is ALREADY KNOWN that processing must fail with
    /// [`PanError::TrackingLost`]: continuity broke mid-recording and
    /// keyframes were committed beyond the gap. (A trailing untrackable gap
    /// with nothing committed beyond it does not break processing.)
    pub fn tracking_broken(&self) -> (b: bool)
        ensures
            b == self.selection().broken_after is Some,
    {
        self.broken_after.is_some()
    }

    /// Whether marker detection is due on the next frame.
    pub fn detection_due(&self) -> (due: bool)
        ensures
            due == crate::coach::is_due(
                self.coach.frame_idx,
                self.width as int,
                self.height as int,
            ),
    {
        self.coach.detection_due(self.width, self.height)
    }

    /// Luma plane, thumbnail and sharpness of a frame.
    pub fn analyze(&self, rgba: &[u8]) -> (frame: Analysis)
        requires
            self.wf(),
            rgba@.len() == self.width * self.height * 4,
        ensures
            analysis::is_analysis(frame, rgba@, self.width as int, self.height as int),
    {
        analysis::analyze(rgba, self.width, self.height)
    }

    /// Consider one captured RGBA frame (`width * height * 4` bytes): its
    /// analysis, and what else capture measured of it.
    pub fn record_frame(&mut self, rgba: &[u8], frame: Analysis, seen: Observation) -> (disposition:
        FrameDisposition)
        requires
            old(self).wf(),
            old(self).coach.frame_idx < u32::MAX,
            rgba@.len() == old(self).width * old(self).height * 4,
            analysis::is_analysis(
                frame,
                rgba@,
                old(self).width as int,
                old(self).height as int,
            ),
        ensures
            final(self).wf(),
            is_recorded(*old(self), *final(self), rgba@, frame, seen, disposition),
            is_accounted(old(self).selection(), final(self).selection(), rgba@, disposition),
    {
        proof {
            let (w, h) = (self.width as int, self.height as int);
            assert(w * h >= 0) by (nonlinear_arith)
                requires
                    w >= 0,
                    h >= 0,
            ;
            analysis::lemma_thumb_area(w, h, analysis::thumb_side(w), analysis::thumb_side(h));
        }
        let first: bool = self.keyframes.len() == 0;
        let motion: CoachMotion = coach_motion(first, &seen);
        self.coach.observe(
            &frame.thumb,
            seen.mean_luma,
            self.width,
            self.height,
            seen.sighted.as_slice(),
            motion,
        );
        self.prev_thumb = Some(frame.thumb);
        let ghost before = old(self).selection();
        let ghost kept = Kept {
            rgba: rgba@,
            gray: frame.gray@,
            sharpness: frame.sharpness,
            shift: zero_shift(),
        };
        let ghost (w, h) = (self.width as int, self.height as int);
        proof {
            law_recording_is_monotone(before, w, h, kept, seen.shift);
            law_disposition_accounts_for_frame(before, w, h, kept, seen.shift);
        }
        if first {
            let zero = (Double::from_bits(0), Double::from_bits(0));
            let keyframe = retain(rgba, frame.gray, frame.sharpness, zero);
            self.keyframes.push(keyframe);
            self.acc_shift = zero;
            assert(self.selection().keyframes =~= before.keyframes.push(keyframe.held()));
            return FrameDisposition::Kept;
        }
        let (ddx, ddy) = match &seen.shift {
            Some(s) if Double::from_bits(MIN_SHIFT_SCORE).le(&s.score) => (s.dx, s.dy),
            _ => {
                // Untrackable content (blank wall / motion blur).
                self.lost_streak = self.lost_streak + 1;
                if self.lost_streak >= LOST_TRACK_FRAMES {
                    self.pending_gap = true;
                }
                return FrameDisposition::Skipped;
            },
        };
        self.lost_streak = 0;
        let acc = (self.acc_shift.0.plus(&ddx), self.acc_shift.1.plus(&ddy));
        self.acc_shift = acc;
        let over: Double = overlap_after(&acc, self.width, self.height);
        if over.lt(&Double::from_bits(KEEP_OVERLAP)) {
            if self.keyframes.len() >= MAX_KEYFRAMES {
                self.truncated = true;
                self.candidate = None;
                return FrameDisposition::CapReached;
            }
            if self.pending_gap && self.broken_after.is_none() {
                // First keyframe committed beyond an untrackable gap.
                self.broken_after = Some(self.keyframes.len() - 1);
            }
            match self.candidate.take() {
                // Commit the sharpest candidate seen in the band; the current
                // frame starts the next candidate window.
                Some((cand, cand_acc)) => {
                    self.keyframes.push(cand);
                    let rest = (acc.0.minus(&cand_acc.0), acc.1.minus(&cand_acc.1));
                    self.acc_shift = rest;
                    let keyframe = retain(rgba, frame.gray, frame.sharpness, in_full_px(&rest));
                    self.candidate = Some((keyframe, rest));
                    assert(self.selection().keyframes =~= before.keyframes.push(cand.held()));
                },
                // Moved fast enough that no candidate exists: keep directly.
                None => {
                    let keyframe = retain(rgba, frame.gray, frame.sharpness, in_full_px(&acc));
                    self.keyframes.push(keyframe);
                    self.acc_shift = (Double::from_bits(0), Double::from_bits(0));
                    assert(self.selection().keyframes =~= before.keyframes.push(keyframe.held()));
                },
            }
            FrameDisposition::Kept
        } else if over.lt(&Double::from_bits(CANDIDATE_OVERLAP)) {
            let sharper: bool = match &self.candidate {
                Some((c, _)) => c.sharpness.lt(&frame.sharpness),
                None => true,
            };
            if sharper {
                let keyframe = retain(rgba, frame.gray, frame.sharpness, in_full_px(&acc));
                self.candidate = Some((keyframe, acc));
                FrameDisposition::Candidate
            } else {
                FrameDisposition::Skipped
            }
        } else {
            FrameDisposition::Skipped
        }
    }

    /// Stop recording: settle the trailing candidate and say whether the
    /// recording can be processed. A refused factor leaves the recording as
    /// it is.
    pub fn finish_recording(&mut self, correction_factor: Double) -> (result: Result<(), PanError>)
        requires
            old(self).wf(),
        ensures
            final(self).wf(),
            is_stopped(*old(self), *final(self), correction_factor),
            result == (match refusal(*final(self), correction_factor) {
                Some(e) => Err::<(), PanError>(e),
                None => Ok::<(), PanError>(()),
            }),
    {
        let zero: Double = Double::from_bits(0);
        assert(zero.value() == 0) by {
            assert(crate::magnitude::units(0) == 0) by (nonlinear_arith);
        }
        if !(correction_factor.is_finite() && zero.lt(&correction_factor)) {
            return Err(PanError::InvalidCorrectionFactor);
        }
        let ghost before = self.selection();
        match self.candidate.take() {
            Some((cand, _)) => {
                if self.pending_gap {
                    // Stale across a gap: drop.
                } else if self.keyframes.len() < MAX_KEYFRAMES {
                    self.keyframes.push(cand);
                    assert(self.selection().keyframes =~= before.keyframes.push(cand.held()));
                } else {
                    self.truncated = true;
                }
            },
            None => {},
        }
        if self.keyframes.len() == 0 {
            return Err(PanError::NoKeyframes);
        }
        match self.broken_after {
            Some(after) => Err(PanError::TrackingLost { after_keyframe: after }),
            None => Ok(()),
        }
    }
}

fn coach_motion(first: bool, seen: &Observation) -> (m: CoachMotion)
    ensures
        m == motion_of(first, *seen),
{
    if first {
        return CoachMotion::FirstFrame;
    }
    let zero: Double = Double::from_bits(0);
    match &seen.shift {
        Some(s) if Double::from_bits(MIN_SHIFT_SCORE).le(&s.score) => {
            // A perfect-correlation zero shift is a repeated camera frame, not
            // a measurement of a stationary pan.
            if s.dx.equals(&zero) && s.dy.equals(&zero) && Double::from_bits(REPEAT_SCORE).lt(
                &s.score,
            ) {
                CoachMotion::Duplicate
            } else {
                CoachMotion::Moved { thumb_px: seen.thumb_px }
            }
        },
        _ => CoachMotion::Untracked,
    }
}

fn retain(rgba: &[u8], gray: Vec<u8>, sharpness: Double, shift: (Double, Double)) -> (k: Keyframe)
    ensures
        k.held() == (Kept { rgba: rgba@, gray: gray@, sharpness, shift }),
{
    let mut copy: Vec<u8> = Vec::new();
    copy.extend_from_slice(rgba);
    assert(copy@ =~= rgba@);
    Keyframe { rgba: copy, gray, sharpness, shift_from_prev: shift }
}

/// Thumb-px shift converted to full-resolution px.
fn in_full_px(acc: &(Double, Double)) -> (px: (Double, Double))
    ensures
        px == full_px(*acc),
{
    let eight: Double = Double::from_bits(THUMB_DIV);
    (acc.0.times(&eight), acc.1.times(&eight))
}

fn overlap_after(acc: &(Double, Double), width: usize, height: usize) -> (o: Double)
    requires
        width <= u32::MAX,
        height <= u32::MAX,
    ensures
        o == overlap(*acc, width as int, height as int),
{
    let eight: Double = Double::from_bits(THUMB_DIV);
    let x: Double = acc.0.abs().times(&eight).over(&Double::from_count(width as u64));
    let y: Double = acc.1.abs().times(&eight).over(&Double::from_count(height as u64));
    Double::from_bits(ONE).minus(&x.max(&y))
}

/// A recording known to be broken ends in [`PanError::TrackingLost`], naming
/// the keyframe before the gap, whatever is recorded after the break.
pub proof fn law_broken_recording_stays_broken(
    sel: Selection,
    w: int,
    h: int,
    frame: Kept,
    shift: Option<Shift>,
)
    requires
        sel.wf(),
        sel.broken_after is Some,
    ensures
        sel.recorded(w, h, frame, shift).0.broken_after == sel.broken_after,
        sel.stopped().broken_after == sel.broken_after,
        sel.stopped().keyframes.len() > 0,
{
}

/// A trailing untrackable gap with nothing committed beyond it does not break
/// the recording: the stale candidate is dropped, everything else stays.
pub proof fn law_trailing_gap_is_harmless(sel: Selection)
    requires
        sel.wf(),
        sel.pending_gap,
        sel.broken_after is None,
    ensures
        sel.stopped() == (Selection { candidate: None, ..sel }),
        sel.stopped().broken_after is None,
{
}

/// Stopping twice is stopping once.
pub proof fn law_stopping_is_idempotent(sel: Selection)
    ensures
        sel.stopped().stopped() == sel.stopped(),
        sel.wf() ==> sel.stopped().wf(),
{
}

} // verus!
