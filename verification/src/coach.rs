//! Live capture coaching: cheap per-frame checks that run alongside keyframe
//! selection so the capture page can coach the Homeowner WHILE recording.
//!
//! Speed and exposure reuse what recording computes anyway (thumbnail shift,
//! thumbnail luma); marker visibility pays for a full-resolution detection
//! every [`COACH_DETECT_EVERY`] frames, because its verdict feeds the retake
//! gate and must match what processing can see. Coaching is purely
//! observational: it never influences keyframe selection or processing.
use vstd::prelude::*;

use crate::double;
use crate::double::Double;
use crate::marker::{LEFT_MARKER_ID, RIGHT_MARKER_ID};

verus! {

/// Run full-resolution marker detection every Nth pushed frame. The seen-flags
/// are sticky, and frame 0 is always probed.
pub const COACH_DETECT_EVERY: u64 = 10;

/// Smallest plane side the detector can work on.
pub const MIN_DETECT_SIDE: usize = 32;

/// Frames since the last marker sighting before "marker lost" trips. Mid-pan
/// on a long wall legitimately sees neither marker for a while, so this is
/// generous (~8 s at 30 fps).
pub const COACH_MARKER_STALE_FRAMES: u64 = 240;

/// Motion-speed hysteresis (fractions of frame width per frame), upper end:
/// the bits of 0.028.
pub const COACH_SPEED_HI_FRAC: u64 = 0x3f9c_ac08_3126_e979;

/// Motion-speed hysteresis, lower end: the bits of 0.018.
pub const COACH_SPEED_LO_FRAC: u64 = 0x3f92_6e97_8d4f_df3b;

/// EMA smoothing for the speed check: the bits of 0.4.
pub const COACH_SPEED_ALPHA: u64 = 0x3fd9_9999_9999_999a;

/// What the EMA keeps of the past: the bits of 1.0 - 0.4.
pub const COACH_SPEED_KEEP: u64 = 0x3fe3_3333_3333_3333;

/// Real-motion floor (thumb px per frame) for the blur bookkeeping: the bits
/// of 0.2. Tracked frames moving less are the Homeowner standing still, and
/// belong on neither side of the "share of motion frames blurred" ratio.
pub const COACH_BLUR_MIN_MOTION_THUMB_PX: u64 = 0x3fc9_9999_9999_999a;

/// Thumbnail downscale factor, as a double: the bits of 8.0.
pub const THUMB_DIV_BITS: u64 = 0x4020_0000_0000_0000;

/// "Too dark" luma threshold of a thumbnail pixel.
pub const COACH_DARK_LUMA: u64 = 40;

/// "Blown out" luma threshold of a thumbnail pixel.
pub const COACH_BRIGHT_LUMA: u64 = 240;

/// Consecutive frames an exposure condition must hold to trip / to clear: a
/// single auto-exposure hiccup must not flash a cue.
pub const COACH_EXPOSURE_DEBOUNCE: u32 = 4;

/// Coaching flags (bitmask in [`CoachStatus::flags`]). A flag is set while its
/// (debounced) check is tripping.
pub const COACH_NO_MARKER: u8 = 1;

pub const COACH_MARKER_LOST: u8 = 2;

pub const COACH_TOO_FAST: u8 = 4;

pub const COACH_TOO_DARK: u8 = 8;

pub const COACH_BLOWN_OUT: u8 = 16;

/// Rotation-dominant motion. No check of [`CoachState`] raises it: camera
/// rotation cannot be told from translation along a wall viewed at an angle by
/// the thumbnail shift alone.
pub const COACH_ROTATION: u8 = 32;

/// The single highest-priority coaching cue for the page's one-message line.
/// Priority: marker problems > too fast > exposure > rotation.
#[derive(Clone, Copy, Debug, PartialEq, Eq, Structural)]
pub enum CoachCue {
    AllGood,
    /// No Reference Marker has been seen yet: start with Marker A in view.
    FindMarkerA,
    /// A marker was seen earlier but none for [`COACH_MARKER_STALE_FRAMES`].
    MarkerLost,
    TooFast,
    TooDark,
    BlownOut,
    RotationDominant,
}

impl CoachCue {
    /// The cue's number on the capture page.
    pub fn code(&self) -> (n: u8)
        ensures
            n == (match *self {
                CoachCue::AllGood => 0u8,
                CoachCue::FindMarkerA => 1u8,
                CoachCue::MarkerLost => 2u8,
                CoachCue::TooFast => 3u8,
                CoachCue::TooDark => 4u8,
                CoachCue::BlownOut => 5u8,
                CoachCue::RotationDominant => 6u8,
            }),
    {
        match *self {
            CoachCue::AllGood => 0,
            CoachCue::FindMarkerA => 1,
            CoachCue::MarkerLost => 2,
            CoachCue::TooFast => 3,
            CoachCue::TooDark => 4,
            CoachCue::BlownOut => 5,
            CoachCue::RotationDominant => 6,
        }
    }
}

/// Compact per-frame coaching status.
#[derive(Clone, Copy, Debug)]
pub struct CoachStatus {
    /// Bitmask of the `COACH_*` flags currently tripping (debounced).
    pub flags: u8,
    /// Marker A / B sighted at least once this recording (sticky). Both must
    /// be true by the time recording stops, or the capture needs a retake.
    pub marker_a_seen: bool,
    pub marker_b_seen: bool,
    /// Smoothed tracked motion (full-resolution px per frame).
    pub speed_px_per_frame: Double,
    /// Mean thumbnail luma of the last frame (0-255).
    pub mean_luma: Double,
    /// Fraction of MOTION frames that were untrackable or over the speed
    /// limit: the "mostly blurred" retake signal.
    pub blur_fraction: Double,
}

/// `flags` has `flag` set.
pub open spec fn is_set(flags: u8, flag: u8) -> bool {
    flags & flag != 0
}

/// Highest-priority cue of a set of flags.
pub open spec fn cue_of(flags: u8) -> CoachCue {
    if is_set(flags, COACH_NO_MARKER) {
        CoachCue::FindMarkerA
    } else if is_set(flags, COACH_MARKER_LOST) {
        CoachCue::MarkerLost
    } else if is_set(flags, COACH_TOO_FAST) {
        CoachCue::TooFast
    } else if is_set(flags, COACH_TOO_DARK) {
        CoachCue::TooDark
    } else if is_set(flags, COACH_BLOWN_OUT) {
        CoachCue::BlownOut
    } else if is_set(flags, COACH_ROTATION) {
        CoachCue::RotationDominant
    } else {
        CoachCue::AllGood
    }
}

impl Default for CoachStatus {
    fn default() -> (s: CoachStatus)
        ensures
            s.flags == 0,
            !s.marker_a_seen,
            !s.marker_b_seen,
            s.speed_px_per_frame.bits == 0,
            s.mean_luma.bits == 0,
            s.blur_fraction.bits == 0,
    {
        CoachStatus {
            flags: 0,
            marker_a_seen: false,
            marker_b_seen: false,
            speed_px_per_frame: Double::from_bits(0),
            mean_luma: Double::from_bits(0),
            blur_fraction: Double::from_bits(0),
        }
    }
}

impl CoachStatus {
    /// Highest-priority active cue (see [`CoachCue`] for the ordering).
    pub fn cue(&self) -> (cue: CoachCue)
        ensures
            cue == cue_of(self.flags),
    {
        if self.flags & COACH_NO_MARKER != 0 {
            CoachCue::FindMarkerA
        } else if self.flags & COACH_MARKER_LOST != 0 {
            CoachCue::MarkerLost
        } else if self.flags & COACH_TOO_FAST != 0 {
            CoachCue::TooFast
        } else if self.flags & COACH_TOO_DARK != 0 {
            CoachCue::TooDark
        } else if self.flags & COACH_BLOWN_OUT != 0 {
            CoachCue::BlownOut
        } else if self.flags & COACH_ROTATION != 0 {
            CoachCue::RotationDominant
        } else {
            CoachCue::AllGood
        }
    }
}

/// What the thumbnail tracker saw for one frame, for coaching purposes.
#[derive(Clone, Copy, Debug)]
pub enum CoachMotion {
    /// The very first frame: nothing to move relative to.
    FirstFrame,
    /// Length of the frame-to-frame thumbnail shift (thumb px).
    Moved { thumb_px: Double },
    /// The tracker lost this frame (motion blur / featureless wall).
    Untracked,
    /// A byte-identical repeat of the previous frame. Its zero shift says
    /// nothing about the pan's real speed.
    Duplicate,
}

/// A thumbnail: per pixel the luma sum of its block, all blocks of one area.
pub struct Thumb {
    pub sums: Vec<u32>,
    pub area: u32,
}

/// Number of thumbnail pixels among the first `n` with mean luma below the
/// dark threshold.
pub open spec fn dark_count(sums: Seq<u32>, area: u32, n: int) -> int
    decreases n,
{
    if n <= 0 {
        0
    } else {
        dark_count(sums, area, n - 1) + (if sums[n - 1] < COACH_DARK_LUMA * area {
            1int
        } else {
            0int
        })
    }
}

/// Number of thumbnail pixels among the first `n` with mean luma above the
/// bright threshold.
pub open spec fn bright_count(sums: Seq<u32>, area: u32, n: int) -> int
    decreases n,
{
    if n <= 0 {
        0
    } else {
        bright_count(sums, area, n - 1) + (if sums[n - 1] > COACH_BRIGHT_LUMA * area {
            1int
        } else {
            0int
        })
    }
}

/// More than 70% of the thumbnail is near black.
pub open spec fn is_dark_frame(thumb: Thumb) -> bool {
    10 * dark_count(thumb.sums@, thumb.area, thumb.sums@.len() as int) > 7 * thumb.sums@.len()
}

/// More than half of the thumbnail is at saturation.
pub open spec fn is_bright_frame(thumb: Thumb) -> bool {
    2 * bright_count(thumb.sums@, thumb.area, thumb.sums@.len() as int) > thumb.sums@.len()
}

/// A debounced condition: it trips, and clears, only after it has held, or
/// failed, for [`COACH_EXPOSURE_DEBOUNCE`] frames in a row.
#[derive(Clone, Copy, Debug, PartialEq, Eq, Structural)]
pub struct Debounced {
    /// Frames in a row that the condition has held.
    pub on: u32,
    /// Frames in a row that it has failed.
    pub off: u32,
    pub tripped: bool,
}

impl Debounced {
    /// One more frame.
    pub open spec fn observed(self, holds: bool) -> Debounced {
        if holds {
            Debounced {
                on: (self.on + 1) as u32,
                off: 0,
                tripped: self.tripped || self.on + 1 >= COACH_EXPOSURE_DEBOUNCE,
            }
        } else {
            Debounced {
                on: 0,
                off: (self.off + 1) as u32,
                tripped: self.tripped && self.off + 1 < COACH_EXPOSURE_DEBOUNCE,
            }
        }
    }

    fn observe(&mut self, holds: bool)
        requires
            old(self).on < u32::MAX,
            old(self).off < u32::MAX,
        ensures
            *final(self) == old(self).observed(holds),
    {
        if holds {
            self.on = self.on + 1;
            self.off = 0;
            if self.on >= COACH_EXPOSURE_DEBOUNCE {
                self.tripped = true;
            }
        } else {
            self.off = self.off + 1;
            self.on = 0;
            if self.off >= COACH_EXPOSURE_DEBOUNCE {
                self.tripped = false;
            }
        }
    }
}

/// Live-coaching state, updated once per pushed frame.
pub struct CoachState {
    /// Frames observed so far.
    pub frame_idx: u64,
    pub seen_a: bool,
    pub seen_b: bool,
    pub last_marker_frame: Option<u64>,
    pub speed_ema_px: Double,
    pub too_fast: bool,
    pub dark: Debounced,
    pub bright: Debounced,
    pub mean_luma: Double,
    /// Motion frames that were untrackable or over the speed limit.
    pub fast_frames: u64,
    /// Frames with a REAL motion observation: tracked above the real-motion
    /// floor, or untrackable.
    pub motion_frames: u64,
}

/// The state before the first frame.
pub open spec fn unobserved() -> CoachState {
    let clear = Debounced { on: 0, off: 0, tripped: false };
    CoachState {
        frame_idx: 0,
        seen_a: false,
        seen_b: false,
        last_marker_frame: None,
        speed_ema_px: Double { bits: 0 },
        too_fast: false,
        dark: clear,
        bright: clear,
        mean_luma: Double { bits: 0 },
        fast_frames: 0,
        motion_frames: 0,
    }
}

/// Marker detection runs on this frame.
pub open spec fn is_due(frame_idx: u64, width: int, height: int) -> bool {
    frame_idx % COACH_DETECT_EVERY == 0 && width >= MIN_DETECT_SIDE && height >= MIN_DETECT_SIDE
}

/// Upper speed limit for a frame of this width.
pub open spec fn speed_hi(width: int) -> Double {
    double::product(Double { bits: COACH_SPEED_HI_FRAC }, double::whole(width))
}

/// Lower end of the speed hysteresis for a frame of this width.
pub open spec fn speed_lo(width: int) -> Double {
    double::product(Double { bits: COACH_SPEED_LO_FRAC }, double::whole(width))
}

/// Full-resolution px of a thumbnail shift.
pub open spec fn full_res(thumb_px: Double) -> Double {
    double::product(thumb_px, Double { bits: THUMB_DIV_BITS })
}

/// The smoothed speed after a tracked frame.
pub open spec fn smoothed(ema: Double, thumb_px: Double) -> Double {
    double::sum(
        double::product(Double { bits: COACH_SPEED_ALPHA }, full_res(thumb_px)),
        double::product(Double { bits: COACH_SPEED_KEEP }, ema),
    )
}

/// The speed verdict after a frame: hysteresis between the two limits.
pub open spec fn speed_verdict(too_fast: bool, ema: Double, width: int) -> bool {
    if speed_hi(width).less(ema) {
        true
    } else if ema.less(speed_lo(width)) {
        false
    } else {
        too_fast
    }
}

/// The frame moved for real: not hand jitter of someone standing still.
pub open spec fn is_real_motion(motion: CoachMotion) -> bool {
    match motion {
        CoachMotion::Moved { thumb_px } => !thumb_px.nan() && !thumb_px.less(
            Double { bits: COACH_BLUR_MIN_MOTION_THUMB_PX },
        ),
        CoachMotion::Untracked => true,
        _ => false,
    }
}

/// The frame is blurred: untrackable, or over the speed limit.
pub open spec fn is_blurred(motion: CoachMotion, width: int) -> bool {
    match motion {
        CoachMotion::Moved { thumb_px } => is_real_motion(motion) && speed_hi(width).less(
            full_res(thumb_px),
        ),
        CoachMotion::Untracked => true,
        _ => false,
    }
}

/// `after` is the coaching state `before` one frame later.
pub open spec fn is_observed(
    before: CoachState,
    after: CoachState,
    thumb: Thumb,
    mean_luma: Double,
    width: int,
    height: int,
    sighted: Seq<u16>,
    motion: CoachMotion,
) -> bool {
    let due = is_due(before.frame_idx, width, height);
    &&& after.frame_idx == before.frame_idx + 1
    &&& after.mean_luma == mean_luma
    &&& after.dark == before.dark.observed(is_dark_frame(thumb))
    &&& after.bright == before.bright.observed(is_bright_frame(thumb))
    &&& after.seen_a == (before.seen_a || (due && sighted.contains(LEFT_MARKER_ID)))
    &&& after.seen_b == (before.seen_b || (due && sighted.contains(RIGHT_MARKER_ID)))
    &&& after.last_marker_frame == (if due && sighted.len() > 0 {
        Some(before.frame_idx)
    } else {
        before.last_marker_frame
    })
    &&& after.speed_ema_px == (match motion {
        CoachMotion::Moved { thumb_px } => smoothed(before.speed_ema_px, thumb_px),
        _ => before.speed_ema_px,
    })
    &&& after.too_fast == (match motion {
        CoachMotion::Moved { .. } => speed_verdict(before.too_fast, after.speed_ema_px, width),
        _ => before.too_fast,
    })
    &&& after.motion_frames == before.motion_frames + (if is_real_motion(motion) {
        1int
    } else {
        0int
    })
    &&& after.fast_frames == before.fast_frames + (if is_blurred(motion, width) {
        1int
    } else {
        0int
    })
}

/// `s` is the status of a coaching state.
pub open spec fn is_status(state: CoachState, s: CoachStatus) -> bool {
    &&& is_set(s.flags, COACH_NO_MARKER) == state.no_marker()
    &&& is_set(s.flags, COACH_MARKER_LOST) == state.marker_lost()
    &&& is_set(s.flags, COACH_TOO_FAST) == state.too_fast
    &&& is_set(s.flags, COACH_TOO_DARK) == state.dark.tripped
    &&& is_set(s.flags, COACH_BLOWN_OUT) == state.bright.tripped
    &&& !is_set(s.flags, COACH_ROTATION)
    &&& s.flags < 64
    &&& s.marker_a_seen == state.seen_a
    &&& s.marker_b_seen == state.seen_b
    &&& s.speed_px_per_frame == state.speed_ema_px
    &&& s.mean_luma == state.mean_luma
    &&& s.blur_fraction == double::quotient(
        double::whole(state.fast_frames as int),
        double::whole(
            if state.motion_frames > 1 {
                state.motion_frames as int
            } else {
                1
            },
        ),
    )
}

impl CoachState {
    /// No counter is ahead of the number of frames.
    pub open spec fn wf(self) -> bool {
        &&& self.dark.on <= self.frame_idx
        &&& self.dark.off <= self.frame_idx
        &&& self.bright.on <= self.frame_idx
        &&& self.bright.off <= self.frame_idx
        &&& self.fast_frames <= self.motion_frames <= self.frame_idx
        &&& self.frame_idx <= u32::MAX
        &&& self.last_marker_frame matches Some(f) ==> f < self.frame_idx
        &&& (self.seen_a || self.seen_b) ==> self.last_marker_frame is Some
    }

    pub fn new() -> (s: CoachState)
        ensures
            s.wf(),
            s == unobserved(),
    {
        CoachState {
            frame_idx: 0,
            seen_a: false,
            seen_b: false,
            last_marker_frame: None,
            speed_ema_px: Double::from_bits(0),
            too_fast: false,
            dark: Debounced { on: 0, off: 0, tripped: false },
            bright: Debounced { on: 0, off: 0, tripped: false },
            mean_luma: Double::from_bits(0),
            fast_frames: 0,
            motion_frames: 0,
        }
    }

    /// Whether the next frame is one that marker detection runs on.
    pub fn detection_due(&self, width: usize, height: usize) -> (due: bool)
        ensures
            due == is_due(self.frame_idx, width as int, height as int),
    {
        self.frame_idx % COACH_DETECT_EVERY == 0 && width >= MIN_DETECT_SIDE && height
            >= MIN_DETECT_SIDE
    }

    /// One coaching observation per pushed frame: exposure from the thumbnail,
    /// motion speed from the tracked thumbnail shift, and the IDs of the
    /// markers found, on frames that detection is due on.
    pub fn observe(
        &mut self,
        thumb: &Thumb,
        mean_luma: Double,
        width: usize,
        height: usize,
        sighted: &[u16],
        motion: CoachMotion,
    )
        requires
            old(self).wf(),
            old(self).frame_idx < u32::MAX,
            width < 0x20_0000_0000_0000,
            thumb.sums@.len() <= u32::MAX,
        ensures
            final(self).wf(),
            is_observed(
                *old(self),
                *final(self),
                *thumb,
                mean_luma,
                width as int,
                height as int,
                sighted@,
                motion,
            ),
    {
        let idx: u64 = self.frame_idx;
        let due: bool = self.detection_due(width, height);
        self.frame_idx = self.frame_idx + 1;

        // Exposure: luma histogram of the thumbnail.
        let n: u64 = thumb.sums.len() as u64;
        let (dark, bright) = count_extremes(thumb);
        self.mean_luma = mean_luma;
        self.dark.observe(10 * dark > 7 * n);
        self.bright.observe(2 * bright > n);

        // Marker visibility.
        if due {
            let mut i: usize = 0;
            while i < sighted.len()
                invariant
                    i <= sighted@.len(),
                    self.frame_idx == idx + 1,
                    self.dark == old(self).dark.observed(is_dark_frame(*thumb)),
                    self.bright == old(self).bright.observed(is_bright_frame(*thumb)),
                    self.mean_luma == mean_luma,
                    self.speed_ema_px == old(self).speed_ema_px,
                    self.too_fast == old(self).too_fast,
                    self.fast_frames == old(self).fast_frames,
                    self.motion_frames == old(self).motion_frames,
                    self.seen_a == (old(self).seen_a || exists|k: int|
                        0 <= k < i && #[trigger] sighted@[k] == LEFT_MARKER_ID),
                    self.seen_b == (old(self).seen_b || exists|k: int|
                        0 <= k < i && #[trigger] sighted@[k] == RIGHT_MARKER_ID),
                    self.last_marker_frame == (if i > 0 {
                        Some(idx)
                    } else {
                        old(self).last_marker_frame
                    }),
                decreases sighted@.len() - i,
            {
                let id: u16 = sighted[i];
                if id == LEFT_MARKER_ID {
                    self.seen_a = true;
                } else if id == RIGHT_MARKER_ID {
                    self.seen_b = true;
                }
                self.last_marker_frame = Some(idx);
                i = i + 1;
            }
        }
        // Motion speed + blur bookkeeping (every frame after the first).

        match motion {
            CoachMotion::FirstFrame | CoachMotion::Duplicate => {},
            CoachMotion::Moved { thumb_px } => {
                let w: Double = Double::from_count(width as u64);
                let hi: Double = Double::from_bits(COACH_SPEED_HI_FRAC).times(&w);
                let lo: Double = Double::from_bits(COACH_SPEED_LO_FRAC).times(&w);
                let px: Double = thumb_px.times(&Double::from_bits(THUMB_DIV_BITS));
                let fresh: Double = Double::from_bits(COACH_SPEED_ALPHA).times(&px);
                let kept: Double = Double::from_bits(COACH_SPEED_KEEP).times(&self.speed_ema_px);
                self.speed_ema_px = fresh.plus(&kept);
                if hi.lt(&self.speed_ema_px) {
                    self.too_fast = true;
                } else if self.speed_ema_px.lt(&lo) {
                    self.too_fast = false;
                }
                // A standing-still frame is not a motion frame and must not
                // dilute the denominator.
                if !thumb_px.is_nan() && !thumb_px.lt(
                    &Double::from_bits(COACH_BLUR_MIN_MOTION_THUMB_PX),
                ) {
                    self.motion_frames = self.motion_frames + 1;
                    if hi.lt(&px) {
                        self.fast_frames = self.fast_frames + 1;
                    }
                }
            },
            // Untrackable: count it as blurred, but leave the (unmeasurable)
            // speed state alone.
            CoachMotion::Untracked => {
                self.motion_frames = self.motion_frames + 1;
                self.fast_frames = self.fast_frames + 1;
            },
        }
    }

    /// No marker has been seen in a recording that has begun.
    pub open spec fn no_marker(self) -> bool {
        self.last_marker_frame is None && self.frame_idx > 0
    }

    /// The last marker sighting is too long ago.
    pub open spec fn marker_lost(self) -> bool {
        self.last_marker_frame matches Some(f) && self.frame_idx - f > COACH_MARKER_STALE_FRAMES
    }

    pub fn status(&self) -> (s: CoachStatus)
        requires
            self.wf(),
        ensures
            is_status(*self, s),
    {
        let lost: u8 = match self.last_marker_frame {
            None => if self.frame_idx > 0 {
                COACH_NO_MARKER
            } else {
                0
            },
            Some(f) => if self.frame_idx - f > COACH_MARKER_STALE_FRAMES {
                COACH_MARKER_LOST
            } else {
                0
            },
        };
        let fast: u8 = if self.too_fast {
            COACH_TOO_FAST
        } else {
            0
        };
        let dark: u8 = if self.dark.tripped {
            COACH_TOO_DARK
        } else {
            0
        };
        let bright: u8 = if self.bright.tripped {
            COACH_BLOWN_OUT
        } else {
            0
        };
        let flags: u8 = lost | fast | dark | bright;
        proof {
            assert((flags & 1 != 0 <==> lost == 1) && (flags & 2 != 0 <==> lost == 2) && (flags & 4
                != 0 <==> fast == 4) && (flags & 8 != 0 <==> dark == 8) && (flags & 16 != 0
                <==> bright == 16) && flags & 32 == 0 && flags < 32) by (bit_vector)
                requires
                    flags == lost | fast | dark | bright,
                    lost == 0 || lost == 1 || lost == 2,
                    fast == 0 || fast == 4,
                    dark == 0 || dark == 8,
                    bright == 0 || bright == 16,
            ;
        }
        let motion: u64 = if self.motion_frames > 1 {
            self.motion_frames
        } else {
            1
        };
        CoachStatus {
            flags,
            marker_a_seen: self.seen_a,
            marker_b_seen: self.seen_b,
            speed_px_per_frame: self.speed_ema_px,
            mean_luma: self.mean_luma,
            blur_fraction: Double::from_count(self.fast_frames).over(&Double::from_count(motion)),
        }
    }
}

/// Numbers of near-black and of saturated thumbnail pixels.
fn count_extremes(thumb: &Thumb) -> (counts: (u64, u64))
    requires
        thumb.sums@.len() <= u32::MAX,
    ensures
        counts.0 == dark_count(thumb.sums@, thumb.area, thumb.sums@.len() as int),
        counts.1 == bright_count(thumb.sums@, thumb.area, thumb.sums@.len() as int),
        counts.0 <= thumb.sums@.len(),
        counts.1 <= thumb.sums@.len(),
{
    let mut dark: u64 = 0;
    let mut bright: u64 = 0;
    let mut i: usize = 0;
    while i < thumb.sums.len()
        invariant
            i <= thumb.sums@.len(),
            thumb.sums@.len() <= u32::MAX,
            dark == dark_count(thumb.sums@, thumb.area, i as int),
            bright == bright_count(thumb.sums@, thumb.area, i as int),
            dark <= i,
            bright <= i,
        decreases thumb.sums@.len() - i,
    {
        let v: u64 = thumb.sums[i] as u64;
        if v < COACH_DARK_LUMA * thumb.area as u64 {
            dark = dark + 1;
        } else if v > COACH_BRIGHT_LUMA * thumb.area as u64 {
            bright = bright + 1;
        }
        i = i + 1;
    }
    (dark, bright)
}

/// With no flag but those of a status, a marker problem outranks speed, and
/// speed outranks exposure.
pub proof fn law_cue_priority(state: CoachState, s: CoachStatus)
    requires
        is_status(state, s),
    ensures
        cue_of(s.flags) == (if state.no_marker() {
            CoachCue::FindMarkerA
        } else if state.marker_lost() {
            CoachCue::MarkerLost
        } else if state.too_fast {
            CoachCue::TooFast
        } else if state.dark.tripped {
            CoachCue::TooDark
        } else if state.bright.tripped {
            CoachCue::BlownOut
        } else {
            CoachCue::AllGood
        }),
{
}

/// Sightings are sticky: a marker that was seen once stays seen.
pub proof fn law_sightings_are_sticky(
    before: CoachState,
    after: CoachState,
    thumb: Thumb,
    mean_luma: Double,
    width: int,
    height: int,
    sighted: Seq<u16>,
    motion: CoachMotion,
)
    requires
        is_observed(before, after, thumb, mean_luma, width, height, sighted, motion),
    ensures
        before.seen_a ==> after.seen_a,
        before.seen_b ==> after.seen_b,
        before.last_marker_frame is Some ==> after.last_marker_frame is Some,
{
}

/// A repeated camera frame leaves the speed and blur bookkeeping alone.
pub proof fn law_duplicates_leave_speed_alone(
    before: CoachState,
    after: CoachState,
    thumb: Thumb,
    mean_luma: Double,
    width: int,
    height: int,
    sighted: Seq<u16>,
)
    requires
        is_observed(
            before,
            after,
            thumb,
            mean_luma,
            width,
            height,
            sighted,
            CoachMotion::Duplicate,
        ),
    ensures
        after.speed_ema_px == before.speed_ema_px,
        after.too_fast == before.too_fast,
        after.motion_frames == before.motion_frames,
        after.fast_frames == before.fast_frames,
{
}

/// A debounced condition that holds for the debounce window is tripped, and
/// one that fails for it is clear; shorter runs change nothing.
pub proof fn law_exposure_is_debounced(d: Debounced, c1: bool, c2: bool, c3: bool, c4: bool)
    requires
        d.on <= u32::MAX - 4,
        d.off <= u32::MAX - 4,
    ensures
        c1 && c2 && c3 && c4 ==> d.observed(c1).observed(c2).observed(c3).observed(c4).tripped,
        !c1 && !c2 && !c3 && !c4 ==> !d.observed(c1).observed(c2).observed(c3).observed(c4).tripped,
        d.on == 0 && c1 && c2 && c3 && !c4 && !d.tripped ==> !d.observed(c1).observed(c2).observed(
            c3,
        ).observed(c4).tripped,
        d.off == 0 && !c1 && !c2 && !c3 && c4 && d.tripped ==> d.observed(c1).observed(c2).observed(
            c3,
        ).observed(c4).tripped,
{
}

} // verus!
