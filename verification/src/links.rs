//! Chain links between consecutive keyframes: their correspondences, and which
//! estimates are good enough to chain.
use vstd::prelude::*;

use crate::detect::DetectedMarker;
use crate::distortion::Distortion;
use crate::double;
use crate::double::Double;
use crate::edge::Point;
use crate::homography;
use crate::homography::{inlier_indices, Estimate};
use crate::linalg::Mat3;
use crate::marker::{LEFT_MARKER_ID, RIGHT_MARKER_ID};
use crate::pan::PanError;
use crate::ransac;
use crate::ransac::errors_within;
use crate::vision::{Estimator, Vision, MOST_FEATURES};

verus! {

/// Fewest agreeing correspondences a link is accepted with.
pub const MIN_LINK_INLIERS: usize = 10;

/// Largest error (px) of an inlier: the bits of 2.5.
pub const LINK_INLIER_THRESHOLD_PX: u64 = 0x4004_0000_0000_0000;

/// Inliers must span this fraction of the frame in x or in y: the bits of 0.25.
pub const MIN_LINK_SPAN_FRAC: u64 = 0x3fd0_0000_0000_0000;

/// Per-link cap on feature matches entering self-calibration.
pub const CALIB_MATCHES_PER_LINK: usize = 40;

/// The bits of positive infinity.
pub const POS_INFINITY: u64 = 0x7ff0_0000_0000_0000;

/// The bits of negative infinity.
pub const NEG_INFINITY: u64 = 0xfff0_0000_0000_0000;

/// Correspondences: `src[k]` in one keyframe is `dst[k]` in the next.
pub struct Matches {
    pub src: Vec<Point>,
    pub dst: Vec<Point>,
}

impl Matches {
    pub open spec fn wf(self) -> bool {
        self.src@.len() == self.dst@.len()
    }

    /// The correspondences as pairs.
    pub open spec fn pairs(self) -> Seq<(Point, Point)> {
        Seq::new(self.src@.len(), |k: int| (self.src@[k], self.dst@[k]))
    }
}

/// First marker from `k` on with this ID, or the number of markers.
pub open spec fn first_with(markers: Seq<DetectedMarker>, id: u16, k: int) -> int
    decreases markers.len() - k,
{
    if k >= markers.len() || markers[k].id == id {
        k
    } else {
        first_with(markers, id, k + 1)
    }
}

/// The corners of the marker with this ID, if it was detected.
pub open spec fn corners_of(markers: Seq<DetectedMarker>, id: u16) -> Option<[Point; 4]> {
    let k = first_with(markers, id, 0);
    if k >= markers.len() {
        None
    } else {
        Some(markers[k].corners)
    }
}

/// The corners of the marker with this ID, if it was detected.
pub fn find_marker(markers: &Vec<DetectedMarker>, id: u16) -> (corners: Option<[Point; 4]>)
    ensures
        corners == corners_of(markers@, id),
{
    let mut k: usize = 0;
    while k < markers.len() && markers[k].id != id
        invariant
            k <= markers@.len(),
            first_with(markers@, id, 0) == first_with(markers@, id, k as int),
        decreases markers@.len() - k,
    {
        k = k + 1;
    }
    if k < markers.len() {
        Some(markers[k].corners)
    } else {
        None
    }
}

/// Those that are found again of the first `n` features, each with where it is found.
pub open spec fn followed<V: Vision>(
    vision: &V,
    i: int,
    features: Seq<Point>,
    shift: Point,
    n: int,
) -> Seq<(Point, Point)>
    decreases n,
{
    if n <= 0 {
        Seq::empty()
    } else {
        let p = features[n - 1];
        let predicted: Point = [p[0] + shift[0], p[1] + shift[1]];
        match vision.found(i, p, predicted) {
            Some(q) => followed(vision, i, features, shift, n - 1).push((p, q)),
            None => followed(vision, i, features, shift, n - 1),
        }
    }
}

/// The corners that a marker has in two keyframes.
pub open spec fn shared_corners(
    a: Seq<DetectedMarker>,
    b: Seq<DetectedMarker>,
    id: u16,
) -> Seq<(Point, Point)> {
    match (corners_of(a, id), corners_of(b, id)) {
        (Some(p), Some(q)) => seq![(p[0], q[0]), (p[1], q[1]), (p[2], q[2]), (p[3], q[3])],
        _ => Seq::empty(),
    }
}

/// The correspondences of keyframe `i` and the next: tracked features, then the
/// corners of shared markers.
pub open spec fn link_pairs<
    V: Vision,
>(
    vision: &V,
    shifts: Seq<Point>,
    detections: Seq<Vec<DetectedMarker>>,
    i: int,
) -> Seq<(Point, Point)> {
    let features = vision.features(i);
    let (a, b) = (detections[i]@, detections[i + 1]@);
    followed(vision, i, features, shifts[i + 1], features.len() as int) + shared_corners(
        a,
        b,
        LEFT_MARKER_ID,
    ) + shared_corners(a, b, RIGHT_MARKER_ID)
}

fn add_shared(m: &mut Matches, a: &Vec<DetectedMarker>, b: &Vec<DetectedMarker>, id: u16)
    requires
        old(m).wf(),
    ensures
        final(m).wf(),
        final(m).pairs() == old(m).pairs() + shared_corners(a@, b@, id),
{
    let ghost before = m.pairs();
    if let Some(p) = find_marker(a, id) {
        if let Some(q) = find_marker(b, id) {
            m.src.push(p[0]);
            m.dst.push(q[0]);
            m.src.push(p[1]);
            m.dst.push(q[1]);
            m.src.push(p[2]);
            m.dst.push(q[2]);
            m.src.push(p[3]);
            m.dst.push(q[3]);
        }
    }
    assert(m.pairs() =~= before + shared_corners(a@, b@, id));
}

fn link_matches<
    V: Vision,
>(
    vision: &V,
    shifts: &Vec<Point>,
    detections: &Vec<Vec<DetectedMarker>>,
    i: usize,
) -> (m: Matches)
    requires
        vision.frames() == detections@.len(),
        shifts@.len() == detections@.len(),
        i + 1 < detections@.len(),
    ensures
        m.wf(),
        m.pairs() == link_pairs(vision, shifts@, detections@, i as int),
        vision.features(i as int).len() <= MOST_FEATURES,
{
    assert(shifts@.len() == shifts.len());
    let shift: Point = shifts[i + 1];
    let features: Vec<Point> = vision.corners(i);
    let mut m: Matches = Matches { src: Vec::new(), dst: Vec::new() };
    let mut k: usize = 0;
    assert(m.pairs() =~= Seq::<(Point, Point)>::empty());
    while k < features.len()
        invariant
            i + 1 < vision.frames(),
            features@ == vision.features(i as int),
            k <= features@.len(),
            m.wf(),
            m.pairs() == followed(vision, i as int, features@, shift, k as int),
        decreases features@.len() - k,
    {
        let p: Point = features[k];
        let predicted: Point = [p[0] + shift[0], p[1] + shift[1]];
        let q: Option<Point> = vision.find(i, p, predicted);
        let ghost before = m.pairs();
        if let Some(q) = q {
            m.src.push(p);
            m.dst.push(q);
            assert(m.pairs() =~= before.push((p, q)));
        }
        k = k + 1;
    }
    // Shared marker corners are the highest-quality correspondences.
    add_shared(&mut m, &detections[i], &detections[i + 1], LEFT_MARKER_ID);
    add_shared(&mut m, &detections[i], &detections[i + 1], RIGHT_MARKER_ID);
    m
}

/// Raw per-link correspondences: feature matches plus shared marker corners, in
/// measured px. `shifts[i]` is the shift
/// that led to keyframe i.
pub fn collect_link_matches<
    V: Vision,
>(vision: &V, shifts: &Vec<Point>, detections: &Vec<Vec<DetectedMarker>>) -> (out: Vec<
    Matches,
>)
    requires
        vision.frames() == detections@.len(),
        shifts@.len() == detections@.len(),
    ensures
        out@.len() == (if detections@.len() == 0 {
            0
        } else {
            detections@.len() - 1
        }),
        forall|i: int|
            0 <= i < out@.len() ==> (#[trigger] out@[i]).wf() && out@[i].pairs() == link_pairs(
                vision,
                shifts@,
                detections@,
                i,
            ),
        forall|i: int| 0 <= i < out@.len()
            ==> (#[trigger] vision.features(i)).len() <= MOST_FEATURES,
{
    let mut out: Vec<Matches> = Vec::new();
    let n: usize = detections.len();
    if n == 0 {
        return out;
    }
    let mut i: usize = 0;
    while i < n - 1
        invariant
            vision.frames() == detections@.len(),
            n == detections@.len(),
            n > 0,
            shifts@.len() == n,
            i <= n - 1,
            out@.len() == i,
            forall|k: int|
                0 <= k < i ==> (#[trigger] out@[k]).wf() && out@[k].pairs() == link_pairs(
                    vision,
                    shifts@,
                    detections@,
                    k,
                ),
            forall|k: int| 0 <= k < i ==> (#[trigger] vision.features(k)).len() <= MOST_FEATURES,
        decreases n - i,
    {
        let m: Matches = link_matches(vision, shifts, detections, i);
        out.push(m);
        i = i + 1;
    }
    out
}

/// Quality record for one chain link (keyframe i -> i+1).
#[derive(Clone, Copy, Debug)]
pub struct LinkQuality {
    pub matches: usize,
    pub inliers: usize,
    pub rms_px: Double,
}

/// An accepted link.
pub struct Link {
    /// Ideal px of keyframe i -> ideal px of keyframe i+1.
    pub h: Mat3,
    pub quality: LinkQuality,
    /// Inlier correspondences in raw measured px, evenly subsampled: the
    /// observations of self-calibration.
    pub kept: Matches,
}

/// The correspondences kept of each link are paired and no more than the cap.
pub open spec fn are_observations(links: Seq<Link>) -> bool {
    forall|i: int|
        0 <= i < links.len() ==> (#[trigger] links[i]).kept.wf() && links[i].kept.src@.len()
            <= CALIB_MATCHES_PER_LINK
}

/// Smallest coordinate of the inliers among the first `n` points.
pub open spec fn lowest(pts: Seq<Point>, mask: Seq<bool>, axis: int, n: int) -> Double
    decreases n,
{
    if n <= 0 {
        Double { bits: POS_INFINITY }
    } else if mask[n - 1] {
        double::smaller(lowest(pts, mask, axis, n - 1), pts[n - 1][axis])
    } else {
        lowest(pts, mask, axis, n - 1)
    }
}

/// Largest coordinate of the inliers among the first `n` points.
pub open spec fn highest(pts: Seq<Point>, mask: Seq<bool>, axis: int, n: int) -> Double
    decreases n,
{
    if n <= 0 {
        Double { bits: NEG_INFINITY }
    } else if mask[n - 1] {
        double::larger(highest(pts, mask, axis, n - 1), pts[n - 1][axis])
    } else {
        highest(pts, mask, axis, n - 1)
    }
}

/// The inliers span enough of a side of the frame.
pub open spec fn spans(pts: Seq<Point>, mask: Seq<bool>, axis: int, side: int) -> bool {
    let n = pts.len() as int;
    Double { bits: MIN_LINK_SPAN_FRAC }.at_most(
        (highest(pts, mask, axis, n) - lowest(pts, mask, axis, n)).per(double::whole(side)),
    )
}

/// Which correspondences an estimate agrees with.
pub open spec fn agreeing(residuals: Seq<Double>) -> Seq<bool> {
    ransac::within(residuals, Double { bits: LINK_INLIER_THRESHOLD_PX })
}

/// An estimate is good enough to chain: it has enough inliers, and those that
/// agree with it are spread over the frame. Inliers clustered in one corner of
/// the frame cannot support extrapolation across it.
pub open spec fn is_acceptable(est: Estimate<Mat3>, src: Seq<Point>, w: int, h: int) -> bool {
    &&& est.inliers >= MIN_LINK_INLIERS
    &&& spans(src, agreeing(est.residuals@), 0, w) || spans(src, agreeing(est.residuals@), 1, h)
}

fn inliers_span(pts: &Vec<Point>, mask: &Vec<bool>, axis: usize, side: usize) -> (ok: bool)
    requires
        axis < 2,
        mask@.len() == pts@.len(),
        side < 0x20_0000_0000_0000,
    ensures
        ok == spans(pts@, mask@, axis as int, side as int),
{
    let mut lo: Double = Double::from_bits(POS_INFINITY);
    let mut hi: Double = Double::from_bits(NEG_INFINITY);
    let mut k: usize = 0;
    while k < pts.len()
        invariant
            axis < 2,
            mask@.len() == pts@.len(),
            k <= pts@.len(),
            lo == lowest(pts@, mask@, axis as int, k as int),
            hi == highest(pts@, mask@, axis as int, k as int),
        decreases pts@.len() - k,
    {
        if mask[k] {
            lo = lo.min(&pts[k][axis]);
            hi = hi.max(&pts[k][axis]);
        }
        k = k + 1;
    }
    Double::from_bits(MIN_LINK_SPAN_FRAC).le(&((hi - lo) / Double::from_count(side as u64)))
}

/// Squared residuals of the inliers among the first `n`, summed.
pub open spec fn inlier_squares(residuals: Seq<Double>, mask: Seq<bool>, n: int) -> Double
    decreases n,
{
    if n <= 0 {
        Double { bits: 0 }
    } else if mask[n - 1] {
        inlier_squares(residuals, mask, n - 1) + residuals[n - 1] * residuals[n - 1]
    } else {
        inlier_squares(residuals, mask, n - 1)
    }
}

/// Root mean square of the inliers: errors that never entered the model must not
/// inflate the Error Bound.
pub open spec fn inlier_rms(residuals: Seq<Double>, mask: Seq<bool>) -> Double {
    let count = homography::indices_of(mask).len() as int;
    inlier_squares(residuals, mask, residuals.len() as int).per(
        double::whole(
            if count > 1 {
                count
            } else {
                1
            },
        ),
    ).root()
}

fn inlier_root_mean_square(residuals: &Vec<Double>, mask: &Vec<bool>, count: usize) -> (rms: Double)
    requires
        mask@.len() == residuals@.len(),
        count == homography::indices_of(mask@).len(),
        count < 0x20_0000_0000_0000,
    ensures
        rms == inlier_rms(residuals@, mask@),
{
    let mut acc: Double = Double::from_bits(0);
    let mut k: usize = 0;
    while k < residuals.len()
        invariant
            mask@.len() == residuals@.len(),
            k <= residuals@.len(),
            acc == inlier_squares(residuals@, mask@, k as int),
        decreases residuals@.len() - k,
    {
        if mask[k] {
            acc = acc + residuals[k] * residuals[k];
        }
        k = k + 1;
    }
    let n: usize = if count > 1 {
        count
    } else {
        1
    };
    (acc / Double::from_count(n as u64)).sqrt()
}

/// Every how many inliers one is kept.
pub open spec fn stride(len: int) -> int {
    let up = (len + CALIB_MATCHES_PER_LINK - 1) / (CALIB_MATCHES_PER_LINK as int);
    if up < 1 {
        1
    } else {
        up
    }
}

/// Every `step`-th of the first `n` of a list, from the first on.
pub open spec fn every<T>(list: Seq<T>, step: int, n: int) -> Seq<T>
    decreases n,
{
    if n <= 0 {
        Seq::empty()
    } else if (n - 1) % step == 0 {
        every(list, step, n - 1).push(list[n - 1])
    } else {
        every(list, step, n - 1)
    }
}

/// The inliers that are kept, evenly subsampled.
pub open spec fn kept_of(idx: Seq<usize>) -> Seq<usize> {
    every(idx, stride(idx.len() as int), idx.len() as int)
}

pub proof fn lemma_every_len<T>(list: Seq<T>, step: int, n: int)
    requires
        step >= 1,
        n >= 0,
    ensures
        every(list, step, n).len() == (n + step - 1) / step,
    decreases n,
{
    if n > 0 {
        lemma_every_len(list, step, n - 1);
        vstd::arithmetic::div_mod::lemma_fundamental_div_mod(n - 1, step);
        let (q, r) = ((n - 1) / step, (n - 1) % step);
        assert(n - 1 + step == step * (q + 1) + r) by (nonlinear_arith)
            requires
                n - 1 == step * q + r,
        ;
        vstd::arithmetic::div_mod::lemma_fundamental_div_mod_converse(
            n - 1 + step,
            step,
            q + 1,
            r,
        );
        if r == 0 {
            assert(n - 2 + step == step * q + (step - 1)) by (nonlinear_arith)
                requires
                    n - 1 == step * q,
            ;
            vstd::arithmetic::div_mod::lemma_fundamental_div_mod_converse(
                n - 2 + step,
                step,
                q,
                step - 1,
            );
        } else {
            assert(n - 2 + step == step * (q + 1) + (r - 1)) by (nonlinear_arith)
                requires
                    n - 1 == step * q + r,
            ;
            vstd::arithmetic::div_mod::lemma_fundamental_div_mod_converse(
                n - 2 + step,
                step,
                q + 1,
                r - 1,
            );
        }
    } else {
        vstd::arithmetic::div_mod::lemma_basic_div(step - 1, step);
    }
}

/// No link keeps more correspondences than the cap, and a link with an inlier
/// keeps one.
pub proof fn law_kept_matches_are_capped(idx: Seq<usize>)
    ensures
        kept_of(idx).len() <= CALIB_MATCHES_PER_LINK,
        idx.len() > 0 ==> kept_of(idx).len() > 0,
{
    let n = idx.len() as int;
    let step = stride(n);
    lemma_every_len(idx, step, n);
    assert(n <= 40 * step);
    assert((n + step - 1) / step <= 40) by (nonlinear_arith)
        requires
            n <= 40 * step,
            step >= 1,
    ;
    if n > 0 {
        assert((n + step - 1) / step >= 1) by (nonlinear_arith)
            requires
                n >= 1,
                step >= 1,
        ;
    }
}

/// `list` holds the raw correspondences with these indices.
pub open spec fn is_selection(list: Matches, raw: Matches, idx: Seq<usize>) -> bool {
    &&& list.wf()
    &&& list.src@ == idx.map_values(|k: usize| raw.src@[k as int])
    &&& list.dst@ == idx.map_values(|k: usize| raw.dst@[k as int])
}

fn subsample(raw: &Matches, idx: &Vec<usize>) -> (kept: Matches)
    requires
        raw.wf(),
        forall|k: int| 0 <= k < idx@.len() ==> #[trigger] idx@[k] < raw.src@.len(),
        idx@.len() < usize::MAX - 40,
    ensures
        is_selection(kept, *raw, kept_of(idx@)),
{
    let n: usize = idx.len();
    let up: usize = (n + (CALIB_MATCHES_PER_LINK - 1)) / CALIB_MATCHES_PER_LINK;
    let step: usize = if up < 1 {
        1
    } else {
        up
    };
    let mut kept: Matches = Matches { src: Vec::new(), dst: Vec::new() };
    let ghost mut picked: Seq<usize> = Seq::empty();
    let mut j: usize = 0;
    proof {
        assert(kept.src@ =~= picked.map_values(|k: usize| raw.src@[k as int]));
        assert(kept.dst@ =~= picked.map_values(|k: usize| raw.dst@[k as int]));
    }
    while j < n
        invariant
            raw.wf(),
            n == idx@.len(),
            forall|k: int| 0 <= k < idx@.len() ==> #[trigger] idx@[k] < raw.src@.len(),
            step == stride(n as int),
            step >= 1,
            j <= n,
            picked == every(idx@, step as int, j as int),
            is_selection(kept, *raw, picked),
        decreases n - j,
    {
        if j % step == 0 {
            let k: usize = idx[j];
            kept.src.push(raw.src[k]);
            kept.dst.push(raw.dst[k]);
            proof {
                picked = picked.push(k);
                assert(kept.src@ =~= picked.map_values(|k: usize| raw.src@[k as int]));
                assert(kept.dst@ =~= picked.map_values(|k: usize| raw.dst@[k as int]));
            }
        }
        j = j + 1;
    }
    kept
}

/// `list` holds the points that the lens model makes of raw ones.
pub open spec fn undistorted_all(dist: Distortion, raw: Seq<Point>) -> Seq<Point> {
    raw.map_values(|p: Point| dist.undistorted(p))
}

/// Undistort every point.
pub fn undistort_all(dist: &Distortion, raw: &Vec<Point>) -> (list: Vec<Point>)
    ensures
        list@ == undistorted_all(*dist, raw@),
{
    let mut list: Vec<Point> = Vec::new();
    let mut k: usize = 0;
    while k < raw.len()
        invariant
            k <= raw@.len(),
            list@.len() == k,
            forall|i: int| 0 <= i < k ==> #[trigger] list@[i] == dist.undistorted(raw@[i]),
        decreases raw@.len() - k,
    {
        list.push(dist.undistort(raw[k]));
        k = k + 1;
    }
    assert(list@ =~= undistorted_all(*dist, raw@));
    list
}

/// What `estimate` makes of the undistorted correspondences; nothing is
/// estimated from fewer than could be accepted.
pub open spec fn is_estimated<E: Estimator>(
    estimate: &E,
    raw: Matches,
    dist: Distortion,
    est: Option<Estimate<Mat3>>,
) -> bool {
    if raw.src@.len() < MIN_LINK_INLIERS {
        est is None
    } else {
        estimate.answers(
            undistorted_all(dist, raw.src@),
            undistorted_all(dist, raw.dst@),
            est,
        )
    }
}

/// `link` is what these correspondences give.
pub open spec fn is_link<E: Estimator>(
    estimate: &E,
    raw: Matches,
    dist: Distortion,
    w: int,
    h: int,
    link: Link,
) -> bool {
    exists|est: Estimate<Mat3>|
        {
            &&& #[trigger] is_estimated(estimate, raw, dist, Some(est))
            &&& is_acceptable(est, undistorted_all(dist, raw.src@), w, h)
            &&& link.h == est.h
            &&& link.quality.matches == raw.src@.len()
            &&& link.quality.inliers == est.inliers
            &&& link.quality.rms_px == inlier_rms(est.residuals@, agreeing(est.residuals@))
            &&& is_selection(
                link.kept,
                raw,
                kept_of(homography::indices_of(agreeing(est.residuals@))),
            )
        }
}

/// These correspondences give no acceptable estimate, but one with this many
/// inliers.
pub open spec fn is_weak<E: Estimator>(
    estimate: &E,
    raw: Matches,
    dist: Distortion,
    w: int,
    h: int,
    inliers: int,
) -> bool {
    exists|est: Option<Estimate<Mat3>>|
        {
            &&& #[trigger] is_estimated(estimate, raw, dist, est)
            &&& (match est {
                Some(e) => inliers == e.inliers && !is_acceptable(
                    e,
                    undistorted_all(dist, raw.src@),
                    w,
                    h,
                ),
                None => inliers == 0,
            })
        }
}

fn estimate_link<E: Estimator>(
    estimate: &E,
    raw: &Matches,
    dist: &Distortion,
    width: usize,
    height: usize,
) -> (link: Result<Link, usize>)
    requires
        raw.wf(),
        raw.src@.len() < 0x20_0000_0000_0000,
        raw.src@.len() < usize::MAX - 40,
        width < 0x20_0000_0000_0000,
        height < 0x20_0000_0000_0000,
    ensures
        link matches Ok(l) ==> is_link(estimate, *raw, *dist, width as int, height as int, l)
            && l.kept.wf() && l.kept.src@.len() <= CALIB_MATCHES_PER_LINK,
        link matches Err(inliers) ==> is_weak(
            estimate,
            *raw,
            *dist,
            width as int,
            height as int,
            inliers as int,
        ),
{
    let src: Vec<Point> = undistort_all(dist, &raw.src);
    let dst: Vec<Point> = undistort_all(dist, &raw.dst);
    let matches: usize = src.len();
    if matches < MIN_LINK_INLIERS {
        assert(is_estimated(estimate, *raw, *dist, None));
        return Err(0);
    }
    let found: Option<Estimate<Mat3>> = estimate.estimate(&src, &dst);
    assert(is_estimated(estimate, *raw, *dist, found));
    match found {
        None => Err(0),
        Some(est) => {
            let limit: Double = Double::from_bits(LINK_INLIER_THRESHOLD_PX);
            let mask: Vec<bool> = errors_within(&est.residuals, &limit);
            if est.inliers < MIN_LINK_INLIERS || !(inliers_span(&src, &mask, 0, width)
                || inliers_span(&src, &mask, 1, height)) {
                return Err(est.inliers);
            }
            let idx: Vec<usize> = inlier_indices(&mask);
            proof {
                lemma_indices_bounds(mask@, mask@.len() as int);
                law_kept_matches_are_capped(idx@);
            }
            let rms_px: Double = inlier_root_mean_square(&est.residuals, &mask, idx.len());
            let kept: Matches = subsample(raw, &idx);
            Ok(
                Link {
                    h: est.h,
                    quality: LinkQuality { matches, inliers: est.inliers, rms_px },
                    kept,
                },
            )
        },
    }
}

proof fn lemma_indices_bounds(mask: Seq<bool>, n: int)
    requires
        0 <= n <= mask.len(),
        mask.len() <= usize::MAX,
    ensures
        homography::indices_upto(mask, n).len() <= n,
        forall|k: int|
            0 <= k < homography::indices_upto(mask, n).len()
                ==> #[trigger] homography::indices_upto(mask, n)[k] < n,
    decreases n,
{
    if n > 0 {
        lemma_indices_bounds(mask, n - 1);
    }
}

/// These correspondences give a link.
pub open spec fn has_link<E: Estimator>(
    estimate: &E,
    raw: Matches,
    dist: Distortion,
    w: int,
    h: int,
) -> bool {
    exists|link: Link| is_link(estimate, raw, dist, w, h, link)
}

/// `e` reports link `i`, the first that is not acceptable.
pub open spec fn is_weak_segment<
    E: Estimator,
>(
    estimate: &E,
    raw: Seq<Matches>,
    dist: Distortion,
    w: int,
    h: int,
    i: int,
    inliers: usize,
    e: PanError,
) -> bool {
    &&& 0 <= i < raw.len()
    &&& forall|j: int|
        0 <= j < i ==> #[trigger] has_link(estimate, raw[j], dist, w, h)
    &&& is_weak(estimate, raw[i], dist, w, h, inliers as int)
    &&& e == PanError::WeakSegment {
        from_keyframe: i as usize,
        to_keyframe: (i + 1) as usize,
        matches: raw[i].src@.len() as usize,
        inliers,
    }
}

/// Estimate all chain links from the raw matches, undistorting every point
/// through `dist` first (exact identity when uncalibrated). The first link that
/// is not acceptable breaks the chain.
pub fn estimate_links<E: Estimator>(
    estimate: &E,
    raw: &Vec<Matches>,
    dist: &Distortion,
    width: usize,
    height: usize,
) -> (links: Result<Vec<Link>, PanError>)
    requires
        forall|i: int| 0 <= i < raw@.len() ==> (#[trigger] raw@[i]).wf(),
        forall|i: int|
            0 <= i < raw@.len() ==> (#[trigger] raw@[i]).src@.len() < 0x20_0000_0000_0000
                && raw@[i].src@.len() < usize::MAX - 40,
        raw@.len() < usize::MAX,
        width < 0x20_0000_0000_0000,
        height < 0x20_0000_0000_0000,
    ensures
        links matches Ok(v) ==> are_observations(v@),
        links matches Ok(v) ==> v@.len() == raw@.len() && forall|i: int|
            0 <= i < raw@.len() ==> is_link(
                estimate,
                raw@[i],
                *dist,
                width as int,
                height as int,
                #[trigger] v@[i],
            ),
        links matches Err(e) ==> exists|i: int, inliers: usize| #[trigger]
            is_weak_segment(
                estimate,
                raw@,
                *dist,
                width as int,
                height as int,
                i,
                inliers,
                e,
            ),
{
    let mut links: Vec<Link> = Vec::new();
    let mut i: usize = 0;
    while i < raw.len()
        invariant
            forall|i: int| 0 <= i < raw@.len() ==> (#[trigger] raw@[i]).wf(),
            forall|i: int|
                0 <= i < raw@.len() ==> (#[trigger] raw@[i]).src@.len() < 0x20_0000_0000_0000
                    && raw@[i].src@.len() < usize::MAX - 40,
            raw@.len() < usize::MAX,
            width < 0x20_0000_0000_0000,
            height < 0x20_0000_0000_0000,
            i <= raw@.len(),
            are_observations(links@),
            links@.len() == i,
            forall|k: int|
                0 <= k < i ==> is_link(
                    estimate,
                    raw@[k],
                    *dist,
                    width as int,
                    height as int,
                    #[trigger] links@[k],
                ),
        decreases raw@.len() - i,
    {
        match estimate_link(estimate, &raw[i], dist, width, height) {
            Ok(link) => {
                links.push(link);
            },
            Err(inliers) => {
                let e: PanError = PanError::WeakSegment {
                    from_keyframe: i,
                    to_keyframe: i + 1,
                    matches: raw[i].src.len(),
                    inliers,
                };
                proof {
                    assert forall|j: int| 0 <= j < i implies #[trigger] has_link(
                        estimate,
                        raw@[j],
                        *dist,
                        width as int,
                        height as int,
                    ) by {
                        assert(is_link(
                            estimate,
                            raw@[j],
                            *dist,
                            width as int,
                            height as int,
                            links@[j],
                        ));
                    }
                    assert(raw@[i as int].src@.len() == raw@[i as int].src.len());
                    assert(is_weak_segment(
                        estimate,
                        raw@,
                        *dist,
                        width as int,
                        height as int,
                        i as int,
                        inliers,
                        e,
                    ));
                }
                return Err(e);
            },
        }
        i = i + 1;
    }
    Ok(links)
}

} // verus!
