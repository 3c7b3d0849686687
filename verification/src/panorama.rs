//! From tracked keyframes to the chain they are stitched with: the pinhole pass,
//! self-calibration, and the calibrated pass where it proves itself.
use vstd::prelude::*;

use crate::bound;
use crate::calib;
use crate::calib::{CalibOutcome, SelfCalibration, MIN_CALIB_KEYFRAMES};
use crate::chain;
use crate::chain::build_chain;
use crate::closure;
use crate::closure::{anchor_keyframe, Quad};
use crate::detect::DetectedMarker;
use crate::distortion::Distortion;
use crate::double::Double;
use crate::edge::Point;
use crate::linalg::Mat3;
use crate::links;
use crate::links::{collect_link_matches, find_marker, Link, LinkQuality, Matches};
use crate::marker::LEFT_MARKER_ID;
use crate::pan::PanError;
use crate::passes;
use crate::passes::{
    bootstrap_k1, estimate_pass, homographies_of, scan_lens, undistort_markers, Pass, Sample,
};
use crate::vision::{Calibrator, Estimator, Vision};

verus! {

/// A chained pan.
pub struct Chained {
    /// The anchor keyframe.
    pub ka: usize,
    /// RMS residual of the anchor's corners (px).
    pub anchor_rms: Double,
    pub links: Vec<LinkQuality>,
    /// Wall mm -> ideal px of every keyframe.
    pub chain: Vec<Mat3>,
    /// The lens model that ideal px are under.
    pub dist: Distortion,
    /// Detections in ideal px.
    pub detections: Vec<Vec<DetectedMarker>>,
    /// The calibration, if one was certified and applied.
    pub calibration: Option<SelfCalibration>,
}

impl Chained {
    /// There is a homography and a set of detections for every keyframe and a
    /// quality for every link, and the anchor keyframe shows Marker A.
    pub open spec fn wf(self) -> bool {
        &&& self.ka < self.detections@.len()
        &&& self.chain@.len() == self.detections@.len()
        &&& self.links@.len() + 1 == self.detections@.len()
        &&& links::corners_of(self.detections@[self.ka as int]@, LEFT_MARKER_ID) is Some
    }
}

/// A pass and the chain that its links build.
pub struct Chain {
    pub pass: Pass,
    pub chain: Vec<Mat3>,
}

/// The chain that a pass builds outward from the anchor.
pub open spec fn chain_of(pass: Pass, ka: int) -> Seq<Mat3> {
    let hs = passes::link_homographies(pass.links@);
    Seq::new(hs.len() + 1, |i: int| chain::chain_at(hs, pass.anchor, ka, i))
}

/// `out` is the chain that a pass under a lens model builds; it fails as the pass
/// does, or where a link cannot be inverted.
pub open spec fn is_chain<E: Estimator>(
    estimate: &E,
    side: Double,
    corners: Quad,
    raw: Seq<Matches>,
    dist: Distortion,
    ka: int,
    w: int,
    h: int,
    out: Result<Chain, PanError>,
) -> bool {
    exists|pass: Result<Pass, PanError>|
        {
            &&& #[trigger] passes::is_pass(estimate, side, corners, raw, dist, w, h, pass)
            &&& match pass {
                Err(e) => out == Err::<Chain, PanError>(e),
                Ok(p) => if chain::is_broken(passes::link_homographies(p.links@), ka) {
                    out == Err::<Chain, PanError>(PanError::DegenerateExtent)
                } else {
                    &&& out matches Ok(c)
                    &&& c.pass == p
                    &&& c.chain@ == chain_of(p, ka)
                },
            }
        }
}

/// Estimate the anchor and every link under a lens model, and chain them.
pub fn chain_pass<E: Estimator>(
    estimate: &E,
    side_mm: Double,
    corners: &Quad,
    raw: &Vec<Matches>,
    dist: &Distortion,
    ka: usize,
    width: usize,
    height: usize,
) -> (out: Result<Chain, PanError>)
    requires
        passes::are_usable(raw@),
        ka <= raw@.len(),
        width < 0x20_0000_0000_0000,
        height < 0x20_0000_0000_0000,
    ensures
        is_chain(
            estimate,
            side_mm,
            *corners,
            raw@,
            *dist,
            ka as int,
            width as int,
            height as int,
            out,
        ),
        out matches Ok(c) ==> c.chain@.len() == raw@.len() + 1 && c.pass.links@.len()
            == raw@.len() && links::are_observations(c.pass.links@),
{
    let passed: Result<Pass, PanError> = estimate_pass(
        estimate,
        side_mm,
        corners,
        raw,
        dist,
        width,
        height,
    );
    let ghost found = passed;
    let out: Result<Chain, PanError> = match passed {
        Err(e) => Err(e),
        Ok(pass) => {
            let hs: Vec<Mat3> = homographies_of(&pass.links);
            match build_chain(&hs, &pass.anchor, ka) {
                Err(e) => Err(e),
                Ok(chain) => {
                    assert(chain@ =~= chain_of(pass, ka as int));
                    Ok(Chain { pass, chain })
                },
            }
        },
    };
    proof {
        assert(passes::is_pass(
            estimate,
            side_mm,
            *corners,
            raw@,
            *dist,
            width as int,
            height as int,
            found,
        ));
    }
    out
}

/// `boot` is the chain that self-calibration starts from with `k1`: that of the
/// scan's minimum, where every link still holds there.
pub open spec fn is_boot<E: Estimator>(
    estimate: &E,
    side: Double,
    corners: Quad,
    raw: Seq<Matches>,
    ka: int,
    w: int,
    h: int,
    boot: Option<(Double, Chain)>,
) -> bool {
    exists|samples: Seq<Sample>|
        {
            &&& #[trigger] passes::are_samples(
                estimate,
                raw,
                w,
                h,
                samples,
                passes::SCAN_STEPS as int,
            )
            &&& match passes::bootstrap_of(samples) {
                None => boot is None,
                Some(k1) => is_boot_at(estimate, side, corners, raw, ka, w, h, k1, boot),
            }
        }
}

/// `boot` is the chain under the lens model with this k1.
pub open spec fn is_boot_at<E: Estimator>(
    estimate: &E,
    side: Double,
    corners: Quad,
    raw: Seq<Matches>,
    ka: int,
    w: int,
    h: int,
    k1: Double,
    boot: Option<(Double, Chain)>,
) -> bool {
    exists|out: Result<Chain, PanError>|
        {
            &&& #[trigger] is_chain(
                estimate,
                side,
                corners,
                raw,
                passes::lens_at(w, h, k1),
                ka,
                w,
                h,
                out,
            )
            &&& match out {
                Err(_) => boot is None,
                Ok(c) => boot == Some((k1, c)),
            }
        }
}

/// Find the lens model that self-calibration starts from. The raw pinhole chain
/// of a genuinely distorted lens absorbs the distortion field into per-link
/// perspective terms, which would poison the initial poses.
pub fn bootstrap<E: Estimator>(
    estimate: &E,
    side_mm: Double,
    corners: &Quad,
    raw: &Vec<Matches>,
    ka: usize,
    width: usize,
    height: usize,
) -> (boot: Option<(Double, Chain)>)
    requires
        passes::are_usable(raw@),
        raw@.len() < 0x20_0000_0000_0000,
        ka <= raw@.len(),
        width < 0x20_0000_0000_0000,
        height < 0x20_0000_0000_0000,
    ensures
        is_boot(
            estimate,
            side_mm,
            *corners,
            raw@,
            ka as int,
            width as int,
            height as int,
            boot,
        ),
        boot matches Some((_, c)) ==> c.chain@.len() == raw@.len() + 1 && c.pass.links@.len()
            == raw@.len() && links::are_observations(c.pass.links@),
{
    let samples: Vec<Sample> = scan_lens(estimate, raw, width, height);
    let ghost (w, h) = (width as int, height as int);
    let boot: Option<(Double, Chain)> = match bootstrap_k1(&samples) {
        None => None,
        Some(k1) => {
            let lens: Distortion = Distortion::new(width, height, k1);
            assert(lens == passes::lens_at(w, h, k1));
            let out: Result<Chain, PanError> = chain_pass(
                estimate,
                side_mm,
                corners,
                raw,
                &lens,
                ka,
                width,
                height,
            );
            let ghost found = out;
            let boot: Option<(Double, Chain)> = match out {
                Err(_) => None,
                Ok(c) => Some((k1, c)),
            };
            proof {
                assert(is_chain(
                    estimate,
                    side_mm,
                    *corners,
                    raw@,
                    passes::lens_at(w, h, k1),
                    ka as int,
                    w,
                    h,
                    found,
                ));
                assert(is_boot_at(estimate, side_mm, *corners, raw@, ka as int, w, h, k1, boot));
            }
            boot
        },
    };
    boot
}

/// The qualities of links.
pub open spec fn qualities(links: Seq<Link>) -> Seq<LinkQuality> {
    links.map_values(|l: Link| l.quality)
}

fn qualities_of(links: &Vec<Link>) -> (q: Vec<LinkQuality>)
    ensures
        q@ == qualities(links@),
{
    let mut q: Vec<LinkQuality> = Vec::new();
    let mut i: usize = 0;
    while i < links.len()
        invariant
            i <= links@.len(),
            q@.len() == i,
            forall|k: int| 0 <= k < i ==> #[trigger] q@[k] == links@[k].quality,
        decreases links@.len() - i,
    {
        q.push(links[i].quality);
        i = i + 1;
    }
    assert(q@ =~= qualities(links@));
    q
}

/// `out` holds the detections in ideal px.
pub open spec fn are_undistorted(
    out: Seq<Vec<DetectedMarker>>,
    dist: Distortion,
    detections: Seq<Vec<DetectedMarker>>,
) -> bool {
    &&& out.len() == detections.len()
    &&& forall|i: int|
        0 <= i < out.len() ==> (#[trigger] out[i])@ == passes::undistorted_markers(
            dist,
            detections[i]@,
        )
}

fn undistort_detections(dist: &Distortion, detections: &Vec<Vec<DetectedMarker>>) -> (out: Vec<
    Vec<DetectedMarker>,
>)
    ensures
        are_undistorted(out@, *dist, detections@),
{
    let mut out: Vec<Vec<DetectedMarker>> = Vec::new();
    let mut i: usize = 0;
    while i < detections.len()
        invariant
            i <= detections@.len(),
            out@.len() == i,
            forall|k: int|
                0 <= k < i ==> (#[trigger] out@[k])@ == passes::undistorted_markers(
                    *dist,
                    detections@[k]@,
                ),
        decreases detections@.len() - i,
    {
        out.push(undistort_markers(dist, &detections[i]));
        i = i + 1;
    }
    out
}

/// `out` is what a pass under a lens model, with this chain, makes of the pan.
pub open spec fn is_result(
    ka: int,
    pass: Pass,
    chain: Seq<Mat3>,
    dist: Distortion,
    detections: Seq<Vec<DetectedMarker>>,
    calibration: Option<SelfCalibration>,
    out: Chained,
) -> bool {
    &&& out.ka == ka
    &&& out.anchor_rms == pass.anchor_rms
    &&& out.links@ == qualities(pass.links@)
    &&& out.chain@ == chain
    &&& out.dist == dist
    &&& are_undistorted(out.detections@, dist, detections)
    &&& out.calibration == calibration
}

fn result_of(
    ka: usize,
    pass: &Pass,
    chain: Vec<Mat3>,
    dist: Distortion,
    detections: &Vec<Vec<DetectedMarker>>,
    calibration: Option<SelfCalibration>,
) -> (out: Chained)
    ensures
        is_result(ka as int, *pass, chain@, dist, detections@, calibration, out),
{
    Chained {
        ka,
        anchor_rms: pass.anchor_rms,
        links: qualities_of(&pass.links),
        chain,
        dist,
        detections: undistort_detections(&dist, detections),
        calibration,
    }
}

/// Whether a calibration proves a lens that bends: no k1 of zero within its 95%
/// interval.
pub open spec fn is_bent(c: SelfCalibration) -> bool {
    (Double { bits: bound::K95 } * c.k1_sigma).less(c.k1.size())
}

/// `out` is the pan under a lens model, with anchor, links and chain estimated again
/// on undistorted points. Where one of those fails, the pinhole pass stands; a lens
/// is never half applied.
pub open spec fn is_rechained<E: Estimator>(
    estimate: &E,
    side: Double,
    corners: Quad,
    raw: Seq<Matches>,
    ka: int,
    w: int,
    h: int,
    detections: Seq<Vec<DetectedMarker>>,
    pinhole: Chain,
    calibration: SelfCalibration,
    out: Chained,
) -> bool {
    exists|again: Result<Chain, PanError>|
        {
            &&& #[trigger] is_chain(
                estimate,
                side,
                corners,
                raw,
                passes::lens_at(w, h, calibration.k1),
                ka,
                w,
                h,
                again,
            )
            &&& match again {
                Err(_) => is_plain(ka, w, h, detections, pinhole, out),
                Ok(c) => is_result(
                    ka,
                    c.pass,
                    c.chain@,
                    passes::lens_at(w, h, calibration.k1),
                    detections,
                    Some(calibration),
                    out,
                ),
            }
        }
}

/// `out` is the pan under a lens model, with the joint fit's own chain; anchor and
/// links are estimated again on undistorted points. Where one of those fails, the
/// pinhole pass stands.
pub open spec fn is_fitted<E: Estimator>(
    estimate: &E,
    side: Double,
    corners: Quad,
    raw: Seq<Matches>,
    ka: int,
    w: int,
    h: int,
    detections: Seq<Vec<DetectedMarker>>,
    pinhole: Chain,
    k1: Double,
    fitted: Seq<Mat3>,
    calibration: Option<SelfCalibration>,
    out: Chained,
) -> bool {
    exists|pass: Result<Pass, PanError>|
        {
            &&& #[trigger] passes::is_pass(
                estimate,
                side,
                corners,
                raw,
                passes::lens_at(w, h, k1),
                w,
                h,
                pass,
            )
            &&& match pass {
                Err(_) => is_plain(ka, w, h, detections, pinhole, out),
                Ok(p) => is_result(
                    ka,
                    p,
                    fitted,
                    passes::lens_at(w, h, k1),
                    detections,
                    calibration,
                    out,
                ),
            }
        }
}

/// `out` is the pan under the pinhole pass.
pub open spec fn is_plain(
    ka: int,
    w: int,
    h: int,
    detections: Seq<Vec<DetectedMarker>>,
    pinhole: Chain,
    out: Chained,
) -> bool {
    is_result(
        ka,
        pinhole.pass,
        pinhole.chain@,
        passes::lens_at(w, h, Double { bits: 0 }),
        detections,
        None,
        out,
    )
}

/// `out` is the pan under what a calibration claims. The chain is estimated again,
/// link by link, where the corrected points are the measured ones within the
/// certainty of k1; under a lens that bends, and where the focal is left open, it is
/// that of the joint fit, because the links' errors would compound along the pan.
/// Neither chain alone serves both lenses. Closing the loop must reduce the far-end
/// error of a noisy pan through a straight lens, which the joint fit's chain leaves
/// larger than the open one's. And under a bent lens a row of dots must stay straight
/// to the frame edges, and the bound must tighten and still hold the true error, which
/// links estimated again one by one do not achieve.
pub open spec fn is_recalibrated<E: Estimator>(
    estimate: &E,
    side: Double,
    corners: Quad,
    raw: Seq<Matches>,
    ka: int,
    w: int,
    h: int,
    detections: Seq<Vec<DetectedMarker>>,
    pinhole: Chain,
    outcome: CalibOutcome,
    out: Chained,
) -> bool {
    match outcome {
        CalibOutcome::Refused => is_plain(ka, w, h, detections, pinhole, out),
        CalibOutcome::Full(c, chain) => if is_bent(c) {
            is_fitted(
                estimate,
                side,
                corners,
                raw,
                ka,
                w,
                h,
                detections,
                pinhole,
                c.k1,
                chain@,
                Some(c),
                out,
            )
        } else {
            is_rechained(
                estimate,
                side,
                corners,
                raw,
                ka,
                w,
                h,
                detections,
                pinhole,
                c,
                out,
            )
        },
        CalibOutcome::DistortionOnly { k1, chain } => is_fitted(
            estimate,
            side,
            corners,
            raw,
            ka,
            w,
            h,
            detections,
            pinhole,
            k1,
            chain@,
            None,
            out,
        ),
    }
}

fn rechain<E: Estimator>(
    estimate: &E,
    side_mm: Double,
    corners: &Quad,
    raw: &Vec<Matches>,
    ka: usize,
    width: usize,
    height: usize,
    detections: &Vec<Vec<DetectedMarker>>,
    pinhole: Chain,
    calibration: SelfCalibration,
) -> (out: Chained)
    requires
        passes::are_usable(raw@),
        width < 0x20_0000_0000_0000,
        height < 0x20_0000_0000_0000,
        pinhole.chain@.len() == raw@.len() + 1,
        pinhole.pass.links@.len() == raw@.len(),
        ka <= raw@.len(),
    ensures
        is_rechained(
            estimate,
            side_mm,
            *corners,
            raw@,
            ka as int,
            width as int,
            height as int,
            detections@,
            pinhole,
            calibration,
            out,
        ),
        out.chain@.len() == raw@.len() + 1,
        out.links@.len() == raw@.len(),
{
    let ghost (w, h) = (width as int, height as int);
    let none: Distortion = Distortion::none(width, height);
    assert(none == passes::lens_at(w, h, Double { bits: 0 }));
    let lens: Distortion = Distortion::new(width, height, calibration.k1);
    assert(lens == passes::lens_at(w, h, calibration.k1));
    let again: Result<Chain, PanError> = chain_pass(
        estimate,
        side_mm,
        corners,
        raw,
        &lens,
        ka,
        width,
        height,
    );
    assert(is_chain(
        estimate,
        side_mm,
        *corners,
        raw@,
        passes::lens_at(w, h, calibration.k1),
        ka as int,
        w,
        h,
        again,
    ));
    match again {
        Err(_) => result_of(ka, &pinhole.pass, pinhole.chain, none, detections, None),
        Ok(c) => result_of(ka, &c.pass, c.chain, lens, detections, Some(calibration)),
    }
}

fn adopt_fit<E: Estimator>(
    estimate: &E,
    side_mm: Double,
    corners: &Quad,
    raw: &Vec<Matches>,
    ka: usize,
    width: usize,
    height: usize,
    detections: &Vec<Vec<DetectedMarker>>,
    pinhole: Chain,
    k1: Double,
    fitted: Vec<Mat3>,
    calibration: Option<SelfCalibration>,
) -> (out: Chained)
    requires
        passes::are_usable(raw@),
        width < 0x20_0000_0000_0000,
        height < 0x20_0000_0000_0000,
        pinhole.chain@.len() == raw@.len() + 1,
        pinhole.pass.links@.len() == raw@.len(),
        fitted@.len() == raw@.len() + 1,
    ensures
        is_fitted(
            estimate,
            side_mm,
            *corners,
            raw@,
            ka as int,
            width as int,
            height as int,
            detections@,
            pinhole,
            k1,
            fitted@,
            calibration,
            out,
        ),
        out.chain@.len() == raw@.len() + 1,
        out.links@.len() == raw@.len(),
{
    let ghost (w, h) = (width as int, height as int);
    let none: Distortion = Distortion::none(width, height);
    assert(none == passes::lens_at(w, h, Double { bits: 0 }));
    let lens: Distortion = Distortion::new(width, height, k1);
    assert(lens == passes::lens_at(w, h, k1));
    let passed: Result<Pass, PanError> = estimate_pass(
        estimate,
        side_mm,
        corners,
        raw,
        &lens,
        width,
        height,
    );
    assert(passes::is_pass(
        estimate,
        side_mm,
        *corners,
        raw@,
        passes::lens_at(w, h, k1),
        w,
        h,
        passed,
    ));
    match passed {
        Err(_) => result_of(ka, &pinhole.pass, pinhole.chain, none, detections, None),
        Ok(pass) => result_of(ka, &pass, fitted, lens, detections, calibration),
    }
}

fn recalibrate<E: Estimator>(
    estimate: &E,
    side_mm: Double,
    corners: &Quad,
    raw: &Vec<Matches>,
    ka: usize,
    width: usize,
    height: usize,
    detections: &Vec<Vec<DetectedMarker>>,
    pinhole: Chain,
    outcome: CalibOutcome,
) -> (out: Chained)
    requires
        passes::are_usable(raw@),
        width < 0x20_0000_0000_0000,
        height < 0x20_0000_0000_0000,
        pinhole.chain@.len() == raw@.len() + 1,
        pinhole.pass.links@.len() == raw@.len(),
        ka <= raw@.len(),
        calib::is_as_long(outcome, raw@.len() + 1),
    ensures
        is_recalibrated(
            estimate,
            side_mm,
            *corners,
            raw@,
            ka as int,
            width as int,
            height as int,
            detections@,
            pinhole,
            outcome,
            out,
        ),
        out.chain@.len() == raw@.len() + 1,
        out.links@.len() == raw@.len(),
        out.ka == ka,
        are_undistorted(out.detections@, out.dist, detections@),
{
    match outcome {
        CalibOutcome::Refused => {
            let none: Distortion = Distortion::none(width, height);
            assert(none == passes::lens_at(width as int, height as int, Double { bits: 0 }));
            result_of(ka, &pinhole.pass, pinhole.chain, none, detections, None)
        },
        CalibOutcome::Full(c, chain) => {
            let bent: bool = (Double::from_bits(bound::K95) * c.k1_sigma).lt(&c.k1.abs());
            if bent {
                let k1: Double = c.k1;
                adopt_fit(
                    estimate,
                    side_mm,
                    corners,
                    raw,
                    ka,
                    width,
                    height,
                    detections,
                    pinhole,
                    k1,
                    chain,
                    Some(c),
                )
            } else {
                rechain(
                    estimate,
                    side_mm,
                    corners,
                    raw,
                    ka,
                    width,
                    height,
                    detections,
                    pinhole,
                    c,
                )
            }
        },
        CalibOutcome::DistortionOnly { k1, chain } => adopt_fit(
            estimate,
            side_mm,
            corners,
            raw,
            ka,
            width,
            height,
            detections,
            pinhole,
            k1,
            chain,
            None,
        ),
    }
}

/// `out` is the pan after self-calibration: attempted from the bootstrap chain,
/// or from the pinhole chain where the scan found none.
pub open spec fn is_self_calibrated<
    E: Estimator,
    K: Calibrator,
>(
    estimate: &E,
    calibrate: &K,
    side: Double,
    corners: Quad,
    raw: Seq<Matches>,
    ka: int,
    w: int,
    h: int,
    detections: Seq<Vec<DetectedMarker>>,
    pinhole: Chain,
    out: Chained,
) -> bool {
    exists|boot: Option<(Double, Chain)>, outcome: CalibOutcome|
        {
            &&& #[trigger] is_boot(estimate, side, corners, raw, ka, w, h, boot)
            &&& match boot {
                Some((k1, c)) => calibrate.concludes(k1, c.chain@, c.pass.links@, outcome),
                None => calibrate.concludes(
                    Double { bits: 0 },
                    pinhole.chain@,
                    pinhole.pass.links@,
                    outcome,
                ),
            }
            &&& #[trigger] is_recalibrated(
                estimate,
                side,
                corners,
                raw,
                ka,
                w,
                h,
                detections,
                pinhole,
                outcome,
                out,
            )
        }
}

/// `out` is the chained pan anchored at `ka`, whose Marker A has these corners.
pub open spec fn is_chained_at<
    E: Estimator,
    K: Calibrator,
>(
    estimate: &E,
    calibrate: &K,
    side: Double,
    corners: Quad,
    raw: Seq<Matches>,
    ka: int,
    w: int,
    h: int,
    detections: Seq<Vec<DetectedMarker>>,
    attempt: bool,
    out: Result<Chained, PanError>,
) -> bool {
    exists|pinhole: Result<Chain, PanError>|
        {
            &&& #[trigger] is_chain(
                estimate,
                side,
                corners,
                raw,
                passes::lens_at(w, h, Double { bits: 0 }),
                ka,
                w,
                h,
                pinhole,
            )
            &&& match pinhole {
                Err(e) => out == Err::<Chained, PanError>(e),
                Ok(c) => {
                    &&& out matches Ok(chained)
                    &&& if attempt && detections.len() >= MIN_CALIB_KEYFRAMES {
                        is_self_calibrated(
                            estimate,
                            calibrate,
                            side,
                            corners,
                            raw,
                            ka,
                            w,
                            h,
                            detections,
                            c,
                            chained,
                        )
                    } else {
                        is_plain(ka, w, h, detections, c, chained)
                    }
                },
            }
        }
}

fn chain_at_anchor<
    E: Estimator,
    K: Calibrator,
>(
    estimate: &E,
    calibrate: &K,
    side_mm: Double,
    corners: &Quad,
    raw: &Vec<Matches>,
    ka: usize,
    width: usize,
    height: usize,
    detections: &Vec<Vec<DetectedMarker>>,
    attempt: bool,
) -> (out: Result<Chained, PanError>)
    requires
        passes::are_usable(raw@),
        raw@.len() < 0x20_0000_0000_0000,
        raw@.len() + 1 == detections@.len(),
        calibrate.keyframes() == detections@.len(),
        ka <= raw@.len(),
        width < 0x20_0000_0000_0000,
        height < 0x20_0000_0000_0000,
    ensures
        is_chained_at(
            estimate,
            calibrate,
            side_mm,
            *corners,
            raw@,
            ka as int,
            width as int,
            height as int,
            detections@,
            attempt,
            out,
        ),
        out matches Ok(c) ==> c.ka == ka && c.chain@.len() == detections@.len()
            && c.links@.len() + 1 == detections@.len() && are_undistorted(
            c.detections@,
            c.dist,
            detections@,
        ),
{
    let ghost (w, h) = (width as int, height as int);
    let none: Distortion = Distortion::none(width, height);
    assert(none == passes::lens_at(w, h, Double { bits: 0 }));
    let chained: Result<Chain, PanError> = chain_pass(
        estimate,
        side_mm,
        corners,
        raw,
        &none,
        ka,
        width,
        height,
    );
    let ghost found = chained;
    proof {
        assert(is_chain(
            estimate,
            side_mm,
            *corners,
            raw@,
            passes::lens_at(w, h, Double { bits: 0 }),
            ka as int,
            w,
            h,
            found,
        ));
    }
    let pinhole: Chain = match chained {
        Err(e) => {
            return Err(e);
        },
        Ok(c) => c,
    };
    if !(attempt && detections.len() >= MIN_CALIB_KEYFRAMES) {
        let out: Chained = result_of(ka, &pinhole.pass, pinhole.chain, none, detections, None);
        return Ok(out);
    }
    let boot: Option<(Double, Chain)> = bootstrap(
        estimate,
        side_mm,
        corners,
        raw,
        ka,
        width,
        height,
    );
    let outcome: CalibOutcome = match &boot {
        Some((k1, c)) => calibrate.calibrate(*k1, &c.chain, &c.pass.links),
        None => calibrate.calibrate(Double::from_bits(0), &pinhole.chain, &pinhole.pass.links),
    };
    let ghost claim = outcome;
    let ghost base = pinhole;
    let out: Chained = recalibrate(
        estimate,
        side_mm,
        corners,
        raw,
        ka,
        width,
        height,
        detections,
        pinhole,
        outcome,
    );
    proof {
        assert(is_boot(estimate, side_mm, *corners, raw@, ka as int, w, h, boot));
        assert(is_recalibrated(
            estimate,
            side_mm,
            *corners,
            raw@,
            ka as int,
            w,
            h,
            detections@,
            base,
            claim,
            out,
        ));
        assert(is_self_calibrated(
            estimate,
            calibrate,
            side_mm,
            *corners,
            raw@,
            ka as int,
            w,
            h,
            detections@,
            base,
            out,
        ));
    }
    Ok(out)
}

/// `raw` holds the correspondences of every two neighbouring keyframes.
pub open spec fn are_matches<
    V: Vision,
>(
    vision: &V,
    shifts: Seq<Point>,
    detections: Seq<Vec<DetectedMarker>>,
    raw: Seq<Matches>,
) -> bool {
    &&& raw.len() + 1 == detections.len()
    &&& forall|i: int|
        0 <= i < raw.len() ==> (#[trigger] raw[i]).wf() && raw[i].pairs() == links::link_pairs(
            vision,
            shifts,
            detections,
            i,
        )
}

/// What holds of a chained pan: it is anchored at the best view of Marker A.
pub open spec fn is_chained<
    V: Vision,
    E: Estimator,
    K: Calibrator,
>(
    vision: &V,
    estimate: &E,
    calibrate: &K,
    side: Double,
    shifts: Seq<Point>,
    detections: Seq<Vec<DetectedMarker>>,
    w: int,
    h: int,
    attempt: bool,
    out: Result<Chained, PanError>,
) -> bool {
    match closure::anchor_of(detections) {
        None => out == Err::<Chained, PanError>(PanError::AnchorMarkerNotFound),
        Some(ka) => exists|raw: Seq<Matches>|
            {
                &&& #[trigger] are_matches(vision, shifts, detections, raw)
                &&& is_chained_at(
                    estimate,
                    calibrate,
                    side,
                    links::corners_of(detections[ka]@, LEFT_MARKER_ID)->0,
                    raw,
                    ka,
                    w,
                    h,
                    detections,
                    attempt,
                    out,
                )
            },
    }
}

/// A chain that breaks at a weak segment names it.
pub proof fn lemma_weak_segment<V: Vision, E: Estimator, K: Calibrator>(
    vision: &V,
    estimate: &E,
    calibrate: &K,
    side: Double,
    shifts: Seq<Point>,
    detections: Seq<Vec<DetectedMarker>>,
    w: int,
    h: int,
    attempt: bool,
    out: Result<Chained, PanError>,
)
    requires
        is_chained(
            vision,
            estimate,
            calibrate,
            side,
            shifts,
            detections,
            w,
            h,
            attempt,
            out,
        ),
        out matches Err(e) && e is WeakSegment,
        detections.len() <= usize::MAX,
    ensures
        ({
            let e = out->Err_0;
            &&& e->to_keyframe == e->from_keyframe + 1
            &&& e->to_keyframe < detections.len()
            &&& e->matches as int == links::link_pairs(
                vision,
                shifts,
                detections,
                e->from_keyframe as int,
            ).len() as usize
        }),
{
    let ka = closure::anchor_of(detections)->0;
    let corners = links::corners_of(detections[ka]@, LEFT_MARKER_ID)->0;
    let raw = choose|raw: Seq<Matches>|
        {
            &&& #[trigger] are_matches(vision, shifts, detections, raw)
            &&& is_chained_at(
                estimate,
                calibrate,
                side,
                corners,
                raw,
                ka,
                w,
                h,
                detections,
                attempt,
                out,
            )
        };
    let none = passes::lens_at(w, h, Double { bits: 0 });
    let pass: Result<Pass, PanError> = Err(out->Err_0);
    assert(passes::is_pass(estimate, side, corners, raw, none, w, h, pass));
    assert(passes::are_links(estimate, raw, none, w, h, Err(out->Err_0)));
    let (i, inliers) = choose|i: int, inliers: usize| #[trigger]
        links::is_weak_segment(estimate, raw, none, w, h, i, inliers, out->Err_0);
    assert(raw[i].pairs().len() == raw[i].src@.len());
}

proof fn lemma_followed_is_shorter<V: Vision>(
    vision: &V,
    i: int,
    features: Seq<Point>,
    shift: Point,
    n: int,
)
    requires
        0 <= n,
    ensures
        links::followed(vision, i, features, shift, n).len() <= n,
    decreases n,
{
    if n > 0 {
        lemma_followed_is_shorter(vision, i, features, shift, n - 1);
    }
}

/// Chain a recorded pan: anchor it at the best view of Marker A, track
/// neighbouring keyframes, estimate and chain the links, and self-calibrate the
/// lens where the pan supports it. `shifts[i]` is the shift that led to keyframe i.
pub fn chain_keyframes<
    V: Vision,
    E: Estimator,
    K: Calibrator,
>(
    vision: &V,
    estimate: &E,
    calibrate: &K,
    side_mm: Double,
    shifts: &Vec<Point>,
    detections: &Vec<Vec<DetectedMarker>>,
    width: usize,
    height: usize,
    attempt: bool,
) -> (out: Result<Chained, PanError>)
    requires
        vision.frames() == detections@.len(),
        calibrate.keyframes() == detections@.len(),
        shifts@.len() == detections@.len(),
        detections@.len() < 0x20_0000_0000_0000,
        width < 0x20_0000_0000_0000,
        height < 0x20_0000_0000_0000,
    ensures
        is_chained(
            vision,
            estimate,
            calibrate,
            side_mm,
            shifts@,
            detections@,
            width as int,
            height as int,
            attempt,
            out,
        ),
        out matches Ok(c) ==> c.wf() && c.detections@.len() == detections@.len(),
{
    let ka: usize = match anchor_keyframe(detections) {
        Err(e) => {
            return Err(e);
        },
        Ok(ka) => ka,
    };
    let raw: Vec<Matches> = collect_link_matches(vision, shifts, detections);
    let anchor: Quad = match find_marker(&detections[ka], LEFT_MARKER_ID) {
        Some(c) => c,
        None => {
            assert(false);
            return Err(PanError::AnchorMarkerNotFound);
        },
    };
    proof {
        assert(are_matches(vision, shifts@, detections@, raw@));
        assert(raw@.len() == raw.len());
        assert(detections@.len() == detections.len());
        assert forall|i: int| 0 <= i < raw@.len() implies (#[trigger] raw@[i]).src@.len() <= 10_008
            by {
            let features = vision.features(i);
            lemma_followed_is_shorter(
                vision,
                i,
                features,
                shifts@[i + 1],
                features.len() as int,
            );
            assert(raw@[i].pairs().len() == raw@[i].src@.len());
        }
    }
    let out: Result<Chained, PanError> = chain_at_anchor(
        estimate,
        calibrate,
        side_mm,
        &anchor,
        &raw,
        ka,
        width,
        height,
        detections,
        attempt,
    );
    proof {
        if out is Ok {
            let c = out->Ok_0;
            assert(c.detections@[ka as int]@ == passes::undistorted_markers(
                c.dist,
                detections@[ka as int]@,
            ));
            passes::lemma_undistorted_corners(c.dist, detections@[ka as int]@, LEFT_MARKER_ID);
        }
    }
    out
}

} // verus!
