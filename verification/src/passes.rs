//! Estimation passes over a recorded pan: the anchor's homography and every
//! link, with or without a lens model, and the scan that bootstraps the lens
//! model.
use vstd::prelude::*;

use crate::closure;
use crate::closure::{anchor_corners_mm, clamp, Quad};
use crate::detect::DetectedMarker;
use crate::distortion;
use crate::distortion::Distortion;
use crate::double;
use crate::double::Double;
use crate::edge::Point;
use crate::homography::Estimate;
use crate::linalg::Mat3;
use crate::links;
use crate::links::{estimate_links, Link, Matches};
use crate::pan::PanError;
use crate::vision::Estimator;

verus! {

/// First k1 of the scan: the bits of -0.30.
pub const FIRST_K1: u64 = 0xbfd3_3333_3333_3333;

/// Spacing of the scan: the bits of 0.02.
pub const K1_STEP: u64 = 0x3f94_7ae1_47ae_147b;

/// Steps of the scan, up to a k1 of 0.06.
pub const SCAN_STEPS: usize = 19;

/// How close two values of k1 count as neighbours on the scan: the bits of 1e-9.
pub const NEIGHBOUR: u64 = 0x3e11_2e0b_e826_d695;

/// Least curvature that a minimum is refined with: the bits of 1e-12.
pub const LEAST_CURVATURE: u64 = 0x3d71_9799_812d_ea11;

/// The bits of 0.5.
pub const ONE_HALF: u64 = 0x3fe0_0000_0000_0000;

/// The bits of 2.0.
pub const TWO: u64 = 0x4000_0000_0000_0000;

/// The corners of a quad in ideal px.
pub open spec fn undistorted_quad(dist: Distortion, q: Quad) -> Quad {
    [
        dist.undistorted(q[0]),
        dist.undistorted(q[1]),
        dist.undistorted(q[2]),
        dist.undistorted(q[3]),
    ]
}

/// The corners of a quad in ideal px.
pub fn undistort_quad(dist: &Distortion, q: &Quad) -> (r: Quad)
    ensures
        r == undistorted_quad(*dist, *q),
{
    [
        dist.undistort(q[0]),
        dist.undistort(q[1]),
        dist.undistort(q[2]),
        dist.undistort(q[3]),
    ]
}

/// Markers with their corners in ideal px.
pub open spec fn undistorted_markers(
    dist: Distortion,
    markers: Seq<DetectedMarker>,
) -> Seq<DetectedMarker> {
    markers.map_values(
        |m: DetectedMarker|
            DetectedMarker { id: m.id, corners: undistorted_quad(dist, m.corners) },
    )
}

/// Markers with their corners in ideal px.
pub fn undistort_markers(dist: &Distortion, markers: &Vec<DetectedMarker>) -> (out: Vec<
    DetectedMarker,
>)
    ensures
        out@ == undistorted_markers(*dist, markers@),
{
    let mut out: Vec<DetectedMarker> = Vec::new();
    let mut i: usize = 0;
    while i < markers.len()
        invariant
            i <= markers@.len(),
            out@.len() == i,
            forall|k: int|
                0 <= k < i ==> #[trigger] out@[k] == (DetectedMarker {
                    id: markers@[k].id,
                    corners: undistorted_quad(*dist, markers@[k].corners),
                }),
        decreases markers@.len() - i,
    {
        out.push(
            DetectedMarker {
                id: markers[i].id,
                corners: undistort_quad(dist, &markers[i].corners),
            },
        );
        i = i + 1;
    }
    assert(out@ =~= undistorted_markers(*dist, markers@));
    out
}

/// A marker that was detected is still there in ideal px.
pub proof fn lemma_undistorted_corners(dist: Distortion, markers: Seq<DetectedMarker>, id: u16)
    ensures
        links::corners_of(undistorted_markers(dist, markers), id) == (match links::corners_of(
            markers,
            id,
        ) {
            Some(c) => Some(undistorted_quad(dist, c)),
            None => None,
        }),
{
    lemma_same_place(dist, markers, id, 0);
    lemma_first_with_bounds(markers, id, 0);
}

proof fn lemma_same_place(dist: Distortion, markers: Seq<DetectedMarker>, id: u16, k: int)
    requires
        0 <= k,
    ensures
        links::first_with(undistorted_markers(dist, markers), id, k) == links::first_with(
            markers,
            id,
            k,
        ),
    decreases markers.len() - k,
{
    if k < markers.len() && markers[k].id != id {
        lemma_same_place(dist, markers, id, k + 1);
    }
}

proof fn lemma_first_with_bounds(markers: Seq<DetectedMarker>, id: u16, k: int)
    requires
        0 <= k,
    ensures
        k <= links::first_with(markers, id, k),
    decreases markers.len() - k,
{
    if k < markers.len() && markers[k].id != id {
        lemma_first_with_bounds(markers, id, k + 1);
    }
}

/// What `estimate` makes of the anchor marker: from the wall square to its
/// corners.
pub open spec fn is_anchor_estimate<
    E: Estimator,
>(estimate: &E, side: Double, corners: Quad, est: Option<Estimate<Mat3>>) -> bool {
    estimate.answers(closure::square_of(side)@, corners@, est)
}

/// Estimate the anchor marker's homography.
pub fn estimate_anchor<E: Estimator>(
    estimate: &E,
    side_mm: Double,
    corners: &Quad,
) -> (est: Option<Estimate<Mat3>>)
    ensures
        is_anchor_estimate(estimate, side_mm, *corners, est),
{
    let world: Quad = anchor_corners_mm(side_mm);
    let s: Vec<Point> = vec![world[0], world[1], world[2], world[3]];
    let d: Vec<Point> = vec![corners[0], corners[1], corners[2], corners[3]];
    assert(s@ =~= closure::square_of(side_mm)@);
    assert(d@ =~= corners@);
    estimate.estimate(&s, &d)
}

/// What one pass over a pan gives.
pub struct Pass {
    /// Wall mm -> ideal px of the anchor keyframe.
    pub anchor: Mat3,
    /// RMS residual of the anchor's corners (px).
    pub anchor_rms: Double,
    pub links: Vec<Link>,
}

/// `pass` is what the links give under a lens model: all of them, or the first
/// that is too weak to chain.
pub open spec fn are_links<E: Estimator>(
    estimate: &E,
    raw: Seq<Matches>,
    dist: Distortion,
    w: int,
    h: int,
    found: Result<Vec<Link>, PanError>,
) -> bool {
    match found {
        Ok(v) => v@.len() == raw.len() && forall|i: int|
            0 <= i < raw.len() ==> links::is_link(
                estimate,
                raw[i],
                dist,
                w,
                h,
                #[trigger] v@[i],
            ),
        Err(e) => exists|i: int, inliers: usize| #[trigger]
            links::is_weak_segment(estimate, raw, dist, w, h, i, inliers, e),
    }
}

/// `pass` is what the anchor's corners and the links give under a lens model.
pub open spec fn is_pass<E: Estimator>(
    estimate: &E,
    side: Double,
    corners: Quad,
    raw: Seq<Matches>,
    dist: Distortion,
    w: int,
    h: int,
    pass: Result<Pass, PanError>,
) -> bool {
    exists|est: Option<Estimate<Mat3>>|
        {
            &&& #[trigger] is_anchor_estimate(estimate, side, undistorted_quad(dist, corners), est)
            &&& match est {
                None => pass == Err::<Pass, PanError>(PanError::AnchorEstimateFailed),
                Some(e) => match pass {
                    Ok(p) => p.anchor == e.h && p.anchor_rms == e.rms && are_links(
                        estimate,
                        raw,
                        dist,
                        w,
                        h,
                        Ok(p.links),
                    ),
                    Err(err) => are_links(estimate, raw, dist, w, h, Err(err)),
                },
            }
        }
}

/// What holds of matches that a pass can take.
pub open spec fn are_usable(raw: Seq<Matches>) -> bool {
    &&& raw.len() < usize::MAX
    &&& forall|i: int|
        0 <= i < raw.len() ==> (#[trigger] raw[i]).wf() && raw[i].src@.len()
            < 0x20_0000_0000_0000 && raw[i].src@.len() < usize::MAX - 40
}

/// Estimate the anchor and every link under a lens model.
pub fn estimate_pass<E: Estimator>(
    estimate: &E,
    side_mm: Double,
    corners: &Quad,
    raw: &Vec<Matches>,
    dist: &Distortion,
    width: usize,
    height: usize,
) -> (pass: Result<Pass, PanError>)
    requires
        are_usable(raw@),
        width < 0x20_0000_0000_0000,
        height < 0x20_0000_0000_0000,
    ensures
        is_pass(
            estimate,
            side_mm,
            *corners,
            raw@,
            *dist,
            width as int,
            height as int,
            pass,
        ),
        pass matches Ok(p) ==> p.links@.len() == raw@.len() && links::are_observations(p.links@),
{
    let ideal: Quad = undistort_quad(dist, corners);
    let est: Option<Estimate<Mat3>> = estimate_anchor(estimate, side_mm, &ideal);
    let found: Estimate<Mat3> = match est {
        None => {
            return Err(PanError::AnchorEstimateFailed);
        },
        Some(e) => e,
    };
    match estimate_links(estimate, raw, dist, width, height) {
        Err(e) => {
            let pass: Result<Pass, PanError> = Err(e);
            assert(is_pass(
                estimate,
                side_mm,
                *corners,
                raw@,
                *dist,
                width as int,
                height as int,
                pass,
            ));
            pass
        },
        Ok(links) => {
            let pass: Result<Pass, PanError> = Ok(
                Pass { anchor: found.h, anchor_rms: found.rms, links },
            );
            assert(is_pass(
                estimate,
                side_mm,
                *corners,
                raw@,
                *dist,
                width as int,
                height as int,
                pass,
            ));
            pass
        },
    }
}

/// The homographies of links.
pub open spec fn link_homographies(links: Seq<Link>) -> Seq<Mat3> {
    links.map_values(|l: Link| l.h)
}

/// The homographies of links.
pub fn homographies_of(links: &Vec<Link>) -> (hs: Vec<Mat3>)
    ensures
        hs@ == link_homographies(links@),
{
    let mut hs: Vec<Mat3> = Vec::new();
    let mut i: usize = 0;
    while i < links.len()
        invariant
            i <= links@.len(),
            hs@.len() == i,
            forall|k: int| 0 <= k < i ==> #[trigger] hs@[k] == links@[k].h,
        decreases links@.len() - i,
    {
        hs.push(links[i].h);
        i = i + 1;
    }
    assert(hs@ =~= link_homographies(links@));
    hs
}

/// k1 of step `j` of the scan.
pub open spec fn scan_k1(j: int) -> Double
    decreases j,
{
    if j <= 0 {
        Double { bits: FIRST_K1 }
    } else {
        scan_k1(j - 1) + Double { bits: K1_STEP }
    }
}

/// Link RMS of the first `n` links, summed.
pub open spec fn rms_sum(links: Seq<Link>, n: int) -> Double
    decreases n,
{
    if n <= 0 {
        Double { bits: 0 }
    } else {
        rms_sum(links, n - 1) + links[n - 1].quality.rms_px
    }
}

/// Mean inlier RMS of the links: a homography fits undistorted matches much
/// better than distorted ones, whatever the focal.
pub open spec fn mean_link_rms(links: Seq<Link>) -> Double {
    rms_sum(links, links.len() as int).per(
        double::whole(
            if links.len() > 1 {
                links.len() as int
            } else {
                1
            },
        ),
    )
}

/// Mean inlier RMS of the links.
pub fn link_rms(links: &Vec<Link>) -> (rms: Double)
    requires
        links@.len() < 0x20_0000_0000_0000,
    ensures
        rms == mean_link_rms(links@),
{
    let mut acc: Double = Double::from_bits(0);
    let mut i: usize = 0;
    while i < links.len()
        invariant
            i <= links@.len(),
            acc == rms_sum(links@, i as int),
        decreases links@.len() - i,
    {
        acc = acc + links[i].quality.rms_px;
        i = i + 1;
    }
    let n: usize = if links.len() > 1 {
        links.len()
    } else {
        1
    };
    acc / Double::from_count(n as u64)
}

/// A k1 of the scan under which every link holds, with the mean link RMS there.
pub type Sample = (Double, Double);

/// The first of the first `n` samples with the lowest RMS.
pub open spec fn lowest_sample(samples: Seq<Sample>, n: int) -> int
    decreases n,
{
    if n <= 1 {
        0
    } else {
        let best = lowest_sample(samples, n - 1);
        if samples[n - 1].1.less(samples[best].1) {
            n - 1
        } else {
            best
        }
    }
}

/// Two values of k1 are the same step of the scan.
pub open spec fn is_step(a: Double, b: Double) -> bool {
    (a - b).size().less(Double { bits: NEIGHBOUR })
}

/// The minimum between three neighbouring samples, by parabola; the middle one
/// where it cannot be refined.
pub open spec fn refined_k1(l: Sample, m: Sample, r: Sample) -> Double {
    let step = Double { bits: K1_STEP };
    let bend = l.1 - Double { bits: TWO } * m.1 + r.1;
    if is_step(l.0, m.0 - step) && is_step(r.0, m.0 + step) && (Double {
        bits: LEAST_CURVATURE,
    }).less(bend) {
        m.0 + closure::clamped(
            (step * Double { bits: ONE_HALF } * (l.1 - r.1)).per(bend),
            step.opposite(),
            step,
        )
    } else {
        m.0
    }
}

/// The k1 that the scan points to.
pub open spec fn bootstrap_of(samples: Seq<Sample>) -> Option<Double> {
    let b = lowest_sample(samples, samples.len() as int);
    if samples.len() == 0 {
        None
    } else if 0 < b && b + 1 < samples.len() {
        Some(refined_k1(samples[b - 1], samples[b], samples[b + 1]))
    } else {
        Some(samples[b].0)
    }
}

proof fn lemma_lowest_bounds(samples: Seq<Sample>, n: int)
    requires
        1 <= n <= samples.len(),
    ensures
        0 <= lowest_sample(samples, n) < n,
    decreases n,
{
    if n > 1 {
        lemma_lowest_bounds(samples, n - 1);
    }
}

/// The k1 that the scan points to: the sample with the lowest link RMS, refined
/// by a parabola when both neighbours exist.
pub fn bootstrap_k1(samples: &Vec<Sample>) -> (k1: Option<Double>)
    ensures
        k1 == bootstrap_of(samples@),
{
    if samples.len() == 0 {
        return None;
    }
    let mut b: usize = 0;
    let mut i: usize = 1;
    while i < samples.len()
        invariant
            1 <= i <= samples@.len(),
            b < i,
            b == lowest_sample(samples@, i as int),
        decreases samples@.len() - i,
    {
        if samples[i].1.lt(&samples[b].1) {
            b = i;
        }
        i = i + 1;
    }
    let m: Sample = samples[b];
    if b > 0 && b < samples.len() - 1 {
        let l: Sample = samples[b - 1];
        let r: Sample = samples[b + 1];
        let step: Double = Double::from_bits(K1_STEP);
        let near: Double = Double::from_bits(NEIGHBOUR);
        let bend: Double = l.1 - Double::from_bits(TWO) * m.1 + r.1;
        if (l.0 - (m.0 - step)).abs().lt(&near) && (r.0 - (m.0 + step)).abs().lt(&near)
            && Double::from_bits(LEAST_CURVATURE).lt(&bend) {
            let d: Double = step * Double::from_bits(ONE_HALF) * (l.1 - r.1) / bend;
            return Some(m.0 + clamp(d, step.negate(), step));
        }
    }
    Some(m.0)
}

/// `after` is `before` with a sample for this k1, if every link holds under it.
pub open spec fn adds_sample<E: Estimator>(
    estimate: &E,
    raw: Seq<Matches>,
    w: int,
    h: int,
    k1: Double,
    before: Seq<Sample>,
    after: Seq<Sample>,
) -> bool {
    exists|found: Result<Vec<Link>, PanError>|
        {
            &&& #[trigger] are_links(estimate, raw, lens_at(w, h, k1), w, h, found)
            &&& match found {
                Ok(links) => after == before.push((k1, mean_link_rms(links@))),
                Err(_) => after == before,
            }
        }
}

/// `samples` holds a sample for each of the first `n` steps of the scan under
/// which every link holds.
pub open spec fn are_samples<E: Estimator>(
    estimate: &E,
    raw: Seq<Matches>,
    w: int,
    h: int,
    samples: Seq<Sample>,
    n: int,
) -> bool
    decreases n,
{
    if n <= 0 {
        samples.len() == 0
    } else {
        exists|before: Seq<Sample>| #[trigger]
            adds_sample(estimate, raw, w, h, scan_k1(n - 1), before, samples) && are_samples(
                estimate,
                raw,
                w,
                h,
                before,
                n - 1,
            )
    }
}

/// The lens model of a frame size with this k1.
pub open spec fn lens_at(w: int, h: int, k1: Double) -> Distortion {
    Distortion {
        k1,
        cx: distortion::half(w),
        cy: distortion::half(h),
        r0: distortion::half_diagonal(w, h),
    }
}

/// Coarse deterministic scan of k1: where every link holds, with the mean link
/// RMS.
pub fn scan_lens<E: Estimator>(
    estimate: &E,
    raw: &Vec<Matches>,
    width: usize,
    height: usize,
) -> (samples: Vec<Sample>)
    requires
        are_usable(raw@),
        raw@.len() < 0x20_0000_0000_0000,
        width < 0x20_0000_0000_0000,
        height < 0x20_0000_0000_0000,
    ensures
        are_samples(
            estimate,
            raw@,
            width as int,
            height as int,
            samples@,
            SCAN_STEPS as int,
        ),
{
    let ghost (w, h) = (width as int, height as int);
    let mut samples: Vec<Sample> = Vec::new();
    let mut k1: Double = Double::from_bits(FIRST_K1);
    let mut j: usize = 0;
    while j < SCAN_STEPS
        invariant
                are_usable(raw@),
            raw@.len() < 0x20_0000_0000_0000,
            width < 0x20_0000_0000_0000,
            height < 0x20_0000_0000_0000,
            w == width,
            h == height,
            j <= SCAN_STEPS,
            k1 == scan_k1(j as int),
            are_samples(estimate, raw@, w, h, samples@, j as int),
        decreases SCAN_STEPS - j,
    {
        let lens: Distortion = Distortion::new(width, height, k1);
        assert(lens == lens_at(w, h, k1));
        let found: Result<Vec<Link>, PanError> = estimate_links(
            estimate,
            raw,
            &lens,
            width,
            height,
        );
        let ghost before = samples@;
        assert(are_links(estimate, raw@, lens_at(w, h, scan_k1(j as int)), w, h, found));
        if let Ok(links) = &found {
            samples.push((k1, link_rms(links)));
        }
        proof {
            let next = j + 1;
            assert(adds_sample(estimate, raw@, w, h, k1, before, samples@));
            assert(scan_k1(next - 1) == k1);
            assert(adds_sample(estimate, raw@, w, h, scan_k1(next - 1), before, samples@));
            assert(are_samples(estimate, raw@, w, h, before, next - 1));
            assert(are_samples(estimate, raw@, w, h, samples@, next as int));
        }
        k1 = k1 + Double::from_bits(K1_STEP);
        j = j + 1;
    }
    samples
}

} // verus!
