//! Frame analysis, recording and coaching on small exact inputs.
use geometry_core::analysis::{analyze, tenengrad, Analysis};
use geometry_core::coach::{
    CoachCue, CoachMotion, CoachState, Thumb, COACH_BLOWN_OUT, COACH_MARKER_LOST, COACH_NO_MARKER,
    COACH_TOO_DARK, COACH_TOO_FAST,
};
use geometry_core::double::Double;
use geometry_core::features::{harris_corners, MARGIN};
use geometry_core::pan::{
    FrameDisposition, Observation, PanCore, PanError, LOST_TRACK_FRAMES, MAX_KEYFRAMES,
};
use geometry_core::shift::{match_by, ncc_shift_local, patch_fits, refine, Shift, NO_SCORE};

fn d(v: f64) -> Double {
    Double::from_bits(v.to_bits())
}

fn f(v: Double) -> f64 {
    f64::from_bits(v.bits)
}

const W: usize = 80;
const H: usize = 48;

fn blank(v: u8) -> Vec<u8> {
    vec![v; W * H * 4]
}

fn shifted(dx: f64, dy: f64, score: f64) -> Observation {
    Observation {
        shift: Some(Shift { dx: d(dx), dy: d(dy), score: d(score) }),
        thumb_px: d(dx.hypot(dy)),
        mean_luma: d(128.0),
        sighted: Vec::new(),
    }
}

fn lost() -> Observation {
    Observation { shift: None, thumb_px: d(0.0), mean_luma: d(128.0), sighted: Vec::new() }
}

fn push(core: &mut PanCore, seen: Observation) -> FrameDisposition {
    let rgba = blank(128);
    let frame: Analysis = core.analyze(&rgba);
    core.record_frame(&rgba, frame, seen)
}

#[test]
fn analysis_takes_luma_thumbnail_and_sharpness() {
    let (w, h) = (16usize, 8usize);
    let mut rgba = vec![0u8; w * h * 4];
    for (i, px) in rgba.chunks_exact_mut(4).enumerate() {
        let v = if i % w < 8 { 10 } else { 90 };
        px.copy_from_slice(&[v, v, v, 255]);
    }
    let a = analyze(&rgba, w, h);
    assert_eq!(a.gray[0], 10);
    assert_eq!(a.gray[15], 90);
    assert_eq!(a.thumb.area, 64);
    assert_eq!(a.thumb.sums, vec![640, 5760]);
    // Rows 1, 3, 5 and columns 1, 3, .., 13: only column 7 sees the step of 80.
    assert_eq!(f(a.sharpness), 3.0 * 6400.0 / 21.0);
    assert_eq!(f(tenengrad(&a.gray[..12], 4, 3)), 0.0, "too small to measure");
}

#[test]
fn overlap_decides_what_becomes_of_a_frame() {
    let mut core = PanCore::new(W, H);
    assert_eq!(push(&mut core, lost()), FrameDisposition::Kept, "the first frame is kept");
    // 1 thumb px = 8 px of 80: overlap 0.9.
    assert_eq!(push(&mut core, shifted(1.0, 0.0, 0.9)), FrameDisposition::Skipped);
    // 0.8: a candidate.
    assert_eq!(push(&mut core, shifted(1.0, 0.0, 0.9)), FrameDisposition::Candidate);
    // 0.5: the candidate is committed, this frame starts the next window.
    assert_eq!(push(&mut core, shifted(3.0, 0.0, 0.9)), FrameDisposition::Kept);
    assert_eq!(core.keyframe_count(), 2);
    assert_eq!(f(core.keyframes[1].shift_from_prev.0), 16.0);
    assert_eq!(f(core.acc_shift.0), 3.0);
    // Vertical motion counts against the height: 2 thumb px = 16 of 48.
    assert_eq!(push(&mut core, shifted(0.0, 3.0, 0.9)), FrameDisposition::Kept);
    assert_eq!(core.keyframe_count(), 3);
    assert!(!core.truncated());
    assert!(!core.tracking_broken());
}

/// A frame of `blank` luma with a bright square, the sharper the brighter.
fn squared(v: u8) -> Vec<u8> {
    let mut rgba = blank(100);
    for y in 10..20 {
        for x in 10..20 {
            rgba[(y * W + x) * 4..(y * W + x) * 4 + 3].copy_from_slice(&[v; 3]);
        }
    }
    rgba
}

#[test]
fn only_a_sharper_frame_replaces_the_candidate() {
    let mut core = PanCore::new(W, H);
    push(&mut core, lost());
    let mut record = |core: &mut PanCore, rgba: &[u8], dx: f64| {
        let frame = core.analyze(rgba);
        core.record_frame(rgba, frame, shifted(dx, 0.0, 0.9))
    };
    let (dull, plain, sharp) = (squared(110), squared(150), squared(250));
    assert_eq!(record(&mut core, &plain, 2.0), FrameDisposition::Candidate);
    assert_eq!(record(&mut core, &dull, 0.5), FrameDisposition::Skipped, "it is dropped");
    assert_eq!(record(&mut core, &plain, 0.0), FrameDisposition::Skipped, "no sharper");
    let held = |core: &PanCore| core.candidate.as_ref().map(|(k, _)| k.rgba.clone());
    assert_eq!(held(&core), Some(plain));
    assert_eq!(record(&mut core, &sharp, 0.5), FrameDisposition::Candidate);
    assert_eq!(held(&core), Some(sharp));
    assert_eq!(core.keyframe_count(), 1);
}

#[test]
fn recorder_starts_unobserved() {
    let core = PanCore::new(W, H);
    assert_eq!(core.coach.frame_idx, 0);
    assert_eq!((f(core.coach.speed_ema_px), f(core.coach.mean_luma)), (0.0, 0.0));
    assert_eq!((core.coach.fast_frames, core.coach.motion_frames), (0, 0));
}

#[test]
fn weak_scores_are_not_tracked() {
    let mut core = PanCore::new(W, H);
    push(&mut core, lost());
    assert_eq!(push(&mut core, shifted(5.0, 0.0, 0.34)), FrameDisposition::Skipped);
    assert_eq!(f(core.acc_shift.0), 0.0);
    assert_eq!(core.lost_streak, 1);
    assert_eq!(push(&mut core, shifted(5.0, 0.0, 0.35)), FrameDisposition::Kept);
    assert_eq!(core.lost_streak, 0);
}

#[test]
fn commits_beyond_a_gap_break_the_chain_for_good() {
    let mut core = PanCore::new(W, H);
    push(&mut core, lost());
    for _ in 0..LOST_TRACK_FRAMES {
        assert_eq!(push(&mut core, lost()), FrameDisposition::Skipped);
    }
    assert!(!core.tracking_broken(), "nothing is committed beyond the gap yet");
    assert_eq!(push(&mut core, shifted(6.0, 0.0, 0.9)), FrameDisposition::Kept);
    assert!(core.tracking_broken());
    for _ in 0..5 {
        push(&mut core, shifted(6.0, 0.0, 0.9));
    }
    assert_eq!(
        core.finish_recording(d(1.0)),
        Err(PanError::TrackingLost { after_keyframe: 0 })
    );
}

#[test]
fn trailing_gap_drops_the_stale_candidate_only() {
    let mut core = PanCore::new(W, H);
    push(&mut core, lost());
    push(&mut core, shifted(2.0, 0.0, 0.9));
    for _ in 0..LOST_TRACK_FRAMES {
        push(&mut core, lost());
    }
    assert_eq!(core.finish_recording(d(1.0)), Ok(()));
    assert_eq!(core.keyframe_count(), 1);
}

#[test]
fn stopping_commits_the_trailing_candidate_once() {
    let mut core = PanCore::new(W, H);
    push(&mut core, lost());
    push(&mut core, shifted(2.0, 0.0, 0.9));
    assert_eq!(core.finish_recording(d(1.0)), Ok(()));
    assert_eq!(core.keyframe_count(), 2);
    assert_eq!(core.finish_recording(d(1.0)), Ok(()));
    assert_eq!(core.keyframe_count(), 2);
}

#[test]
fn keyframe_cap_truncates_the_recording() {
    let mut core = PanCore::new(W, H);
    push(&mut core, lost());
    for _ in 1..MAX_KEYFRAMES {
        assert_eq!(push(&mut core, shifted(6.0, 0.0, 0.9)), FrameDisposition::Kept);
    }
    assert_eq!(core.keyframe_count(), MAX_KEYFRAMES);
    assert!(!core.truncated());
    assert_eq!(push(&mut core, shifted(6.0, 0.0, 0.9)), FrameDisposition::CapReached);
    assert_eq!(core.keyframe_count(), MAX_KEYFRAMES);
    assert!(core.truncated());
}

#[test]
fn unusable_recordings_are_refused() {
    let mut core = PanCore::new(W, H);
    assert_eq!(core.finish_recording(d(1.0)), Err(PanError::NoKeyframes));
    for factor in [0.0, -1.0, f64::NAN, f64::INFINITY] {
        assert_eq!(
            core.finish_recording(d(factor)),
            Err(PanError::InvalidCorrectionFactor)
        );
    }
}

#[test]
fn every_failure_says_what_to_do() {
    let weak =
        PanError::WeakSegment { from_keyframe: 3, to_keyframe: 4, matches: 12, inliers: 5 };
    assert_eq!(
        weak.message(),
        "tracking failed between keyframe 3 and 4 (12 matches, 5 agreeing): pan more slowly and steadily across that part of the wall"
    );
    assert_eq!(
        PanError::TrackingLost { after_keyframe: 10 }.message(),
        "tracking was lost after keyframe 10 (the camera moved too fast or that stretch of wall had nothing to track): re-record the pan, moving slowly and steadily"
    );
    assert_eq!(
        PanError::InvalidCorrectionFactor.message(),
        "invalid print-scale correction factor"
    );
    assert_eq!(
        PanError::NoKeyframes.message(),
        "no keyframes were captured during the pan"
    );
    assert_eq!(
        PanError::AnchorMarkerNotFound.message(),
        "Reference Marker A was never seen: start the pan with the whole left marker in view"
    );
    assert_eq!(
        PanError::AnchorEstimateFailed.message(),
        "Reference Marker A was seen but its geometry could not be estimated"
    );
    assert_eq!(
        PanError::DegenerateExtent.message(),
        "the tracked pan did not produce a usable wall extent"
    );
}

#[test]
fn dispositions_and_cues_have_stable_codes() {
    assert_eq!(FrameDisposition::Kept.code(), 0);
    assert_eq!(FrameDisposition::Skipped.code(), 1);
    assert_eq!(FrameDisposition::Candidate.code(), 2);
    assert_eq!(FrameDisposition::CapReached.code(), 3);
    assert_eq!(CoachCue::AllGood.code(), 0);
    assert_eq!(CoachCue::FindMarkerA.code(), 1);
    assert_eq!(CoachCue::MarkerLost.code(), 2);
    assert_eq!(CoachCue::TooFast.code(), 3);
    assert_eq!(CoachCue::TooDark.code(), 4);
    assert_eq!(CoachCue::BlownOut.code(), 5);
}

fn thumb(v: u32) -> Thumb {
    Thumb { sums: vec![v * 4; 10], area: 4 }
}

fn observe(s: &mut CoachState, luma: u32, sighted: &[u16], motion: CoachMotion) {
    s.observe(&thumb(luma), d(luma as f64), 500, 300, sighted, motion);
}

#[test]
fn speed_is_smoothed_and_has_hysteresis() {
    let mut s = CoachState::new();
    observe(&mut s, 100, &[0], CoachMotion::FirstFrame);
    // 2 thumb px = 16 px; thresholds at 500 px are 14 and 9.
    observe(&mut s, 100, &[], CoachMotion::Moved { thumb_px: d(2.0) });
    assert_eq!(f(s.status().speed_px_per_frame), 0.4 * 16.0);
    assert_eq!(s.status().flags, 0);
    for _ in 0..10 {
        observe(&mut s, 100, &[], CoachMotion::Moved { thumb_px: d(2.0) });
    }
    assert_eq!(s.status().flags, COACH_TOO_FAST);
    assert_eq!(s.status().cue(), CoachCue::TooFast);
    assert_eq!(f(s.status().blur_fraction), 1.0);
    // Repeats leave the verdict alone, slow frames clear it.
    let before = s.status();
    observe(&mut s, 100, &[], CoachMotion::Duplicate);
    assert_eq!(f(s.status().speed_px_per_frame), f(before.speed_px_per_frame));
    assert_eq!(f(s.status().blur_fraction), f(before.blur_fraction));
    for _ in 0..4 {
        observe(&mut s, 100, &[], CoachMotion::Moved { thumb_px: d(0.0) });
    }
    assert_eq!(s.status().flags, 0);
    assert_eq!(f(s.status().blur_fraction), 1.0, "standing still does not dilute");
}

#[test]
fn exposure_trips_on_the_fourth_frame_and_clears_on_the_fourth() {
    let mut s = CoachState::new();
    for k in 1..=4 {
        observe(&mut s, 39, &[0], CoachMotion::Untracked);
        assert_eq!(s.status().flags & COACH_TOO_DARK != 0, k == 4);
    }
    for k in 1..=4 {
        observe(&mut s, 40, &[], CoachMotion::Untracked);
        assert_eq!(s.status().flags & COACH_TOO_DARK != 0, k < 4);
    }
    for k in 1..=4 {
        observe(&mut s, 241, &[], CoachMotion::Untracked);
        assert_eq!(s.status().flags & COACH_BLOWN_OUT != 0, k == 4);
    }
    assert_eq!(f(s.status().mean_luma), 241.0);
}

#[test]
fn sightings_stick_and_go_stale() {
    let mut s = CoachState::new();
    assert_eq!(s.status().flags, 0, "nothing is missing before the first frame");
    observe(&mut s, 100, &[], CoachMotion::FirstFrame);
    assert_eq!(s.status().flags, COACH_NO_MARKER);
    for _ in 1..10 {
        observe(&mut s, 100, &[], CoachMotion::Untracked);
    }
    assert!(s.detection_due(500, 300) && !s.detection_due(31, 300));
    observe(&mut s, 100, &[1], CoachMotion::Untracked);
    assert!(!s.status().marker_a_seen && s.status().marker_b_seen);
    assert_eq!(s.status().flags & (COACH_NO_MARKER | COACH_MARKER_LOST), 0);
    for _ in 0..240 {
        observe(&mut s, 100, &[], CoachMotion::Untracked);
    }
    assert_eq!(s.status().flags & COACH_MARKER_LOST, COACH_MARKER_LOST);
    assert!(s.status().marker_b_seen);
}

#[test]
fn shift_search_finds_the_peak_and_refines_it() {
    // A paraboloid with its top at (2.25, -1).
    let score = |dx: i64, dy: i64| {
        let (x, y) = (dx as f64 - 2.25, dy as f64 + 1.0);
        d(0.75 - 0.0078125 * (x * x + y * y))
    };
    let s = ncc_shift_local(&score).unwrap();
    assert_eq!((f(s.dx), f(s.dy)), (2.25, -1.0));
    assert_eq!(f(s.score), 0.75 - 0.0078125 * 0.0625);
    let flat = |_: i64, _: i64| Double::from_bits(NO_SCORE);
    assert!(ncc_shift_local(&flat).is_none());
    // A parabola through equal neighbours peaks in the middle; a flat one and one
    // without a neighbour are not refined.
    let at = |l: f64, m: f64, r: f64| f(refine(1e-12f64.to_bits(), &d(m), &d(l), &d(r)));
    assert_eq!(at(0.5, 1.0, 0.5), 0.0);
    assert_eq!(at(0.25, 1.0, 0.75), 0.25);
    assert_eq!(at(-2.0, 1.0, 0.75), 0.0);
    assert_eq!(at(1.0, 1.0, 1.0), 0.0);
}

#[test]
fn matches_need_a_good_peak_inside_the_search_window() {
    let score = |dx: i64, dy: i64| if (dx, dy) == (-18, 4) { d(0.9) } else { d(0.1) };
    let m = match_by(&score, 100, 50).unwrap();
    assert_eq!((f(m.x), f(m.y), f(m.score)), (82.0, 54.0, 0.9));
    let weak = |_: i64, _: i64| d(0.5);
    assert!(match_by(&weak, 100, 50).is_none());
    assert!(patch_fits(20, 20, 6, 13) && !patch_fits(20, 20, 6, 14) && !patch_fits(20, 20, 5, 13));
}

#[test]
fn corners_are_found_away_from_the_border_and_capped() {
    let (w, h) = (120usize, 90usize);
    let mut gray = vec![200u8; w * h];
    for y in 40..52 {
        for x in 60..75 {
            gray[y * w + x] = 20;
        }
    }
    let all = harris_corners(&gray, w, h, 150);
    assert!(!all.is_empty());
    for p in &all {
        assert!(p[0] >= MARGIN && p[0] < w - MARGIN && p[1] >= MARGIN && p[1] < h - MARGIN);
        let near = |v: usize, a: usize, b: usize| v.abs_diff(a) <= 3 || v.abs_diff(b) <= 3;
        assert!(near(p[0], 60, 75) && near(p[1], 40, 52), "not a corner: {p:?}");
    }
    assert_eq!(harris_corners(&gray, w, h, 1), all[..1].to_vec());
    assert!(harris_corners(&gray[..400], 20, 20, 150).is_empty());
}
