//! The whole of a recorded pan's processing, on the library's own arithmetic:
//! what it sees in the keyframes, how it estimates and calibrates, and the
//! stitched wall that comes of it.
use vstd::prelude::*;

use crate::blur;
use crate::blur::marker_edge_blur_px;
use crate::bundle;
use crate::bundle::{self_calibrate, CalibInput, Sighting};
use crate::calib;
use crate::calib::CalibOutcome;
use crate::closure;
use crate::closure::anchor_keyframe;
use crate::detect;
use crate::detect::{detect_markers, DetectedMarker};
use crate::double;
use crate::double::Double;
use crate::edge::Point;
use crate::estimate;
use crate::features;
use crate::features::harris_corners;
use crate::homography::Estimate;
use crate::linalg::Mat3;
use crate::links;
use crate::links::{find_marker, Link, Matches};
use crate::marker::{LEFT_MARKER_ID, RIGHT_MARKER_ID};
use crate::ncc;
use crate::ncc::ncc_match;
use crate::pan;
use crate::pan::{Keyframe, PanCore, PanError};
use crate::pose;
use crate::pose::Trig;
use crate::rectify;
use crate::sample;
use crate::sample::Luma;
use crate::shift::Match;
use crate::vision::{Calibrator, Estimator, Vision};
use crate::wall;
use crate::wall::{process, stitch_frames, PanOutput, PanPlan};

verus! {

/// What the library sees in keyframes of one size.
pub struct PanVision<'a> {
    pub keyframes: &'a Vec<Keyframe>,
    /// The markers of each keyframe.
    pub detections: &'a Vec<Vec<DetectedMarker>>,
    pub width: usize,
    pub height: usize,
}

/// A pixel as a point.
pub open spec fn point_of(p: [usize; 2]) -> Point {
    [double::whole(p[0] as int), double::whole(p[1] as int)]
}

/// Where a match is.
pub open spec fn place_of(m: Option<Match>) -> Option<Point> {
    match m {
        Some(m) => Some([m.x, m.y]),
        None => None,
    }
}

impl<'a> PanVision<'a> {
    /// Every keyframe has the size of the frame, and was searched for markers.
    pub open spec fn wf(&self) -> bool {
        &&& 0 < self.width <= i32::MAX
        &&& 0 < self.height <= i32::MAX
        &&& self.keyframes@.len() == self.detections@.len()
        &&& forall|i: int|
            0 <= i < self.keyframes@.len() ==> (#[trigger] self.keyframes@[i]).gray@.len()
                == self.width * self.height
    }
}

impl<'a> Vision for PanVision<'a> {
    open spec fn frames(&self) -> int {
        if self.wf() {
            self.keyframes@.len() as int
        } else {
            -1
        }
    }

    open spec fn features(&self, i: int) -> Seq<Point> {
        features::corners_in(
            self.keyframes@[i].gray@,
            self.width as int,
            self.height as int,
            features::MAX_FEATURES as int,
        ).map_values(|p: [usize; 2]| point_of(p))
    }

    open spec fn found(&self, i: int, p: Point, predicted: Point) -> Option<Point> {
        place_of(
            choose|m: Option<Match>| #[trigger]
                ncc::is_found(
                    self.keyframes@[i].gray@,
                    self.keyframes@[i + 1].gray@,
                    self.width as int,
                    self.height as int,
                    p,
                    predicted,
                    m,
                ),
        )
    }

    open spec fn blurred(&self, i: int) -> Double {
        match links::corners_of(self.detections@[i]@, RIGHT_MARKER_ID) {
            Some(c) => blur::blur_of(
                &sample::luma_of(self.keyframes@[i].gray@, self.width, self.height),
                blur::last_of(self.width as int),
                blur::last_of(self.height as int),
                c,
            ),
            None => Double { bits: 0 },
        }
    }

    fn corners(&self, i: usize) -> (list: Vec<Point>) {
        let gray: &[u8] = self.keyframes[i].gray.as_slice();
        let pixels: Vec<[usize; 2]> = harris_corners(
            gray,
            self.width,
            self.height,
            features::MAX_FEATURES,
        );
        let mut list: Vec<Point> = Vec::new();
        let mut k: usize = 0;
        while k < pixels.len()
            invariant
                self.wf(),
                k <= pixels@.len(),
                forall|j: int|
                    0 <= j < pixels@.len() ==> (#[trigger] pixels@[j])[0] < self.width
                        && pixels@[j][1] < self.height,
                list@.len() == k,
                forall|j: int| 0 <= j < k ==> #[trigger] list@[j] == point_of(pixels@[j]),
            decreases pixels@.len() - k,
        {
            list.push(
                [Double::from_count(pixels[k][0] as u64), Double::from_count(pixels[k][1] as u64)],
            );
            assert(list@[k as int] =~= point_of(pixels@[k as int]));
            k = k + 1;
        }
        assert(list@ =~= self.features(i as int));
        list
    }

    fn find(&self, i: usize, p: Point, predicted: Point) -> (q: Option<Point>) {
        assert(self.keyframes@.len() == self.keyframes.len());
        let found: Option<Match> = ncc_match(
            self.keyframes[i].gray.as_slice(),
            self.keyframes[i + 1].gray.as_slice(),
            self.width,
            self.height,
            &p,
            &predicted,
        );
        proof {
            let (a, b) = (self.keyframes@[i as int].gray@, self.keyframes@[i + 1].gray@);
            let (w, h) = (self.width as int, self.height as int);
            let m = choose|m: Option<Match>| #[trigger]
                ncc::is_found(a, b, w, h, p, predicted, m);
            ncc::lemma_found_is_unique(a, b, w, h, p, predicted, found, m);
        }
        match found {
            Some(m) => Some([m.x, m.y]),
            None => None,
        }
    }

    fn blur(&self, i: usize) -> (b: Double) {
        match find_marker(&self.detections[i], RIGHT_MARKER_ID) {
            Some(c) => {
                let luma: Luma = Luma {
                    gray: self.keyframes[i].gray.as_slice(),
                    width: self.width,
                    height: self.height,
                };
                proof {
                    sample::lemma_luma_of(luma);
                }
                marker_edge_blur_px(&luma, &c)
            },
            None => Double::from_bits(0),
        }
    }
}

/// Estimates the homographies of a pan.
pub struct LinkEstimator;

impl Estimator for LinkEstimator {
    open spec fn answers(
        &self,
        src: Seq<Point>,
        dst: Seq<Point>,
        est: Option<Estimate<Mat3>>,
    ) -> bool {
        estimate::is_homography(src, dst, Double { bits: links::LINK_INLIER_THRESHOLD_PX }, est)
    }

    fn estimate(&self, src: &Vec<Point>, dst: &Vec<Point>) -> (est: Option<Estimate<Mat3>>) {
        let limit: Double = Double::from_bits(links::LINK_INLIER_THRESHOLD_PX);
        let est: Option<Estimate<Mat3>> = estimate::estimate(src, dst, limit);
        proof {
            estimate::lemma_residual_count(src@, dst@, limit, est);
        }
        est
    }
}

/// Marker A as each of the first `n` keyframes that show it does.
pub open spec fn sightings_upto(detections: Seq<Vec<DetectedMarker>>, n: int) -> Seq<Sighting>
    decreases n,
{
    if n <= 0 {
        Seq::empty()
    } else {
        match links::corners_of(detections[n - 1]@, LEFT_MARKER_ID) {
            Some(c) => sightings_upto(detections, n - 1).push(
                Sighting { keyframe: (n - 1) as usize, corners: c },
            ),
            None => sightings_upto(detections, n - 1),
        }
    }
}

fn sightings(detections: &Vec<Vec<DetectedMarker>>) -> (list: Vec<Sighting>)
    ensures
        list@ == sightings_upto(detections@, detections@.len() as int),
        list@.len() <= detections@.len(),
        forall|i: int|
            0 <= i < list@.len() ==> (#[trigger] list@[i]).keyframe < detections@.len(),
{
    let mut list: Vec<Sighting> = Vec::new();
    let mut k: usize = 0;
    while k < detections.len()
        invariant
            k <= detections@.len(),
            list@ == sightings_upto(detections@, k as int),
            list@.len() <= k,
            forall|i: int|
                0 <= i < list@.len() ==> (#[trigger] list@[i]).keyframe < detections@.len(),
        decreases detections@.len() - k,
    {
        match find_marker(&detections[k], LEFT_MARKER_ID) {
            Some(corners) => {
                list.push(Sighting { keyframe: k, corners });
            },
            None => {},
        }
        k = k + 1;
    }
    list
}

/// `observed` holds what is kept of each link.
pub open spec fn are_kept(links: Seq<Link>, observed: Seq<Matches>) -> bool {
    &&& observed.len() == links.len()
    &&& forall|i: int|
        0 <= i < links.len() ==> (#[trigger] observed[i]).src@ == links[i].kept.src@
            && observed[i].dst@ == links[i].kept.dst@
}

fn copy_points(pts: &Vec<Point>) -> (copy: Vec<Point>)
    ensures
        copy@ == pts@,
{
    let mut copy: Vec<Point> = Vec::new();
    while copy.len() < pts.len()
        invariant
            copy@.len() <= pts@.len(),
            copy@ =~= pts@.take(copy@.len() as int),
        decreases pts@.len() - copy@.len(),
    {
        copy.push(pts[copy.len()]);
    }
    assert(copy@ =~= pts@);
    copy
}

fn copy_chain(chain: &Vec<Mat3>) -> (copy: Vec<Mat3>)
    ensures
        copy@ == chain@,
{
    let mut copy: Vec<Mat3> = Vec::new();
    while copy.len() < chain.len()
        invariant
            copy@.len() <= chain@.len(),
            copy@ =~= chain@.take(copy@.len() as int),
        decreases chain@.len() - copy@.len(),
    {
        copy.push(chain[copy.len()]);
    }
    assert(copy@ =~= chain@);
    copy
}

fn kept_matches(links: &Vec<Link>) -> (observed: Vec<Matches>)
    ensures
        are_kept(links@, observed@),
{
    let mut observed: Vec<Matches> = Vec::new();
    let mut k: usize = 0;
    while k < links.len()
        invariant
            k <= links@.len(),
            observed@.len() == k,
            forall|i: int|
                0 <= i < k ==> (#[trigger] observed@[i]).src@ == links@[i].kept.src@
                    && observed@[i].dst@ == links@[i].kept.dst@,
        decreases links@.len() - k,
    {
        let src: Vec<Point> = copy_points(&links[k].kept.src);
        let dst: Vec<Point> = copy_points(&links[k].kept.dst);
        observed.push(Matches { src, dst });
        k = k + 1;
    }
    observed
}

proof fn lemma_few_residuals(observed: Seq<Matches>, n: int)
    requires
        0 <= n <= observed.len(),
        forall|i: int|
            0 <= i < n ==> (#[trigger] observed[i]).src@.len() <= links::CALIB_MATCHES_PER_LINK,
    ensures
        0 <= bundle::link_residuals(observed, n) <= 2 * links::CALIB_MATCHES_PER_LINK * n,
    decreases n,
{
    if n > 0 {
        lemma_few_residuals(observed, n - 1);
    }
}

/// Calibrates the lens of a pan from its links and Marker A. `sin_cos` and `acos`
/// are the trigonometric functions.
pub struct PanCalibrator<'a, SinCos, Acos> {
    pub width: usize,
    pub height: usize,
    /// Physical marker side (mm, print-scale corrected).
    pub side_mm: Double,
    /// The markers of each keyframe.
    pub detections: &'a Vec<Vec<DetectedMarker>>,
    pub sin_cos: &'a SinCos,
    pub acos: &'a Acos,
}

impl<
    'a,
    SinCos: Fn(Double) -> (Double, Double),
    Acos: Fn(Double) -> Double,
> PanCalibrator<'a, SinCos, Acos> {
    pub open spec fn wf(&self) -> bool {
        &&& self.width < 0x20_0000_0000_0000
        &&& self.height < 0x20_0000_0000_0000
        &&& self.detections@.len() <= pan::MAX_KEYFRAMES
        &&& pose::are_curves(self.sin_cos, self.acos)
    }

    /// `input` is what is refined: the chain, and what links and Marker A show.
    pub open spec fn is_input(
        &self,
        k1: Double,
        chain: Seq<Mat3>,
        links: Seq<Link>,
        input: CalibInput,
    ) -> bool {
        &&& input.width == self.width
        &&& input.height == self.height
        &&& input.side_mm == self.side_mm
        &&& input.k1_init == k1
        &&& input.w_chain@ == chain
        &&& input.marker_a@ == sightings_upto(self.detections@, self.detections@.len() as int)
        &&& are_kept(links, input.links@)
    }

    /// `outcome` is what the refinement of `input` leads to.
    pub open spec fn is_outcome(&self, input: CalibInput, outcome: CalibOutcome) -> bool {
        forall|t: Trig| #[trigger]
            pose::is_sine(self.sin_cos, t) && #[trigger] pose::is_arc(self.acos, t)
                ==> calib::is_calibrated(
                bundle::problem_of(t, input),
                input.width as int,
                input.height as int,
                input.w_chain@,
                input.marker_a@.len() as int,
                input.links@.len() as int,
                outcome,
            )
    }
}

impl<
    'a,
    SinCos: Fn(Double) -> (Double, Double),
    Acos: Fn(Double) -> Double,
> Calibrator for PanCalibrator<'a, SinCos, Acos> {
    open spec fn keyframes(&self) -> int {
        if self.wf() {
            self.detections@.len() as int
        } else {
            -1
        }
    }

    open spec fn concludes(
        &self,
        k1: Double,
        chain: Seq<Mat3>,
        links: Seq<Link>,
        outcome: CalibOutcome,
    ) -> bool {
        exists|input: CalibInput| #[trigger]
            self.is_input(k1, chain, links, input) && self.is_outcome(input, outcome)
    }

    fn calibrate(&self, k1: Double, chain: &Vec<Mat3>, links: &Vec<Link>) -> (outcome:
        CalibOutcome) {
        let input: CalibInput = CalibInput {
            width: self.width,
            height: self.height,
            side_mm: self.side_mm,
            k1_init: k1,
            w_chain: copy_chain(chain),
            marker_a: sightings(self.detections),
            links: kept_matches(links),
        };
        proof {
            assert forall|i: int| 0 <= i < input.links@.len() implies (
            #[trigger] input.links@[i]).wf() && input.links@[i].src@.len()
                <= links::CALIB_MATCHES_PER_LINK by {
                assert(links@[i].kept.wf());
            }
            lemma_few_residuals(input.links@, input.links@.len() as int);
        }
        let outcome: CalibOutcome = self_calibrate(&input, self.sin_cos, self.acos);
        assert(self.is_input(k1, chain@, links@, input));
        assert(self.is_outcome(input, outcome));
        outcome
    }
}

/// `detections` holds the markers of every keyframe.
pub open spec fn are_all_detected(
    keyframes: Seq<Keyframe>,
    width: usize,
    height: usize,
    detections: Seq<Vec<DetectedMarker>>,
) -> bool {
    &&& detections.len() == keyframes.len()
    &&& forall|i: int|
        0 <= i < keyframes.len() ==> detect::are_detected(
            &sample::luma_of(keyframes[i].gray@, width, height),
            (#[trigger] detections[i])@,
        )
}

fn detect_all(keyframes: &Vec<Keyframe>, width: usize, height: usize) -> (detections: Vec<
    Vec<DetectedMarker>,
>)
    requires
        detect::is_detectable(width as int, height as int),
        forall|i: int|
            0 <= i < keyframes@.len() ==> (#[trigger] keyframes@[i]).fits(
                width as int,
                height as int,
            ),
    ensures
        are_all_detected(keyframes@, width, height, detections@),
{
    let mut detections: Vec<Vec<DetectedMarker>> = Vec::new();
    let mut k: usize = 0;
    while k < keyframes.len()
        invariant
            detect::is_detectable(width as int, height as int),
            forall|i: int|
                0 <= i < keyframes@.len() ==> (#[trigger] keyframes@[i]).fits(
                    width as int,
                    height as int,
                ),
            k <= keyframes@.len(),
            detections@.len() == k,
            forall|i: int|
                0 <= i < k ==> detect::are_detected(
                    &sample::luma_of(keyframes@[i].gray@, width, height),
                    (#[trigger] detections@[i])@,
                ),
        decreases keyframes@.len() - k,
    {
        assert(keyframes@[k as int].fits(width as int, height as int));
        let gray: &[u8] = keyframes[k].gray.as_slice();
        proof {
            sample::lemma_luma_of(Luma { gray, width, height });
        }
        detections.push(detect_markers(gray, width, height));
        k = k + 1;
    }
    detections
}

/// How far each keyframe is from the one before.
pub open spec fn shifts_of(keyframes: Seq<Keyframe>) -> Seq<Point> {
    keyframes.map_values(|k: Keyframe| [k.shift_from_prev.0, k.shift_from_prev.1])
}

/// How sharp each keyframe is.
pub open spec fn sharpness_of(keyframes: Seq<Keyframe>) -> Seq<Double> {
    keyframes.map_values(|k: Keyframe| k.sharpness)
}

fn measures(keyframes: &Vec<Keyframe>) -> (measured: (Vec<Point>, Vec<Double>))
    ensures
        measured.0@ == shifts_of(keyframes@),
        measured.1@ == sharpness_of(keyframes@),
{
    let mut shifts: Vec<Point> = Vec::new();
    let mut sharpness: Vec<Double> = Vec::new();
    let mut k: usize = 0;
    while k < keyframes.len()
        invariant
            k <= keyframes@.len(),
            shifts@.len() == k,
            sharpness@.len() == k,
            forall|i: int|
                0 <= i < k ==> #[trigger] shifts@[i] == [
                    keyframes@[i].shift_from_prev.0,
                    keyframes@[i].shift_from_prev.1,
                ],
            forall|i: int| 0 <= i < k ==> #[trigger] sharpness@[i] == keyframes@[i].sharpness,
        decreases keyframes@.len() - k,
    {
        shifts.push([keyframes[k].shift_from_prev.0, keyframes[k].shift_from_prev.1]);
        sharpness.push(keyframes[k].sharpness);
        k = k + 1;
    }
    assert(shifts@ =~= shifts_of(keyframes@));
    assert(sharpness@ =~= sharpness_of(keyframes@));
    (shifts, sharpness)
}

/// `plan` is what the keyframes of a recording, with these markers, say of the
/// wall.
pub open spec fn is_planned<
    T: Fn(Double, Double) -> (Double, Double),
    P: Fn(Double, Double) -> Double,
    SinCos: Fn(Double) -> (Double, Double),
    Acos: Fn(Double) -> Double,
>(
    curves: (&T, &P),
    trig: (&SinCos, &Acos),
    core: PanCore,
    factor: Double,
    close: bool,
    attempt: bool,
    detections: Vec<Vec<DetectedMarker>>,
    plan: Result<PanPlan, PanError>,
) -> bool {
    wall::is_processed(
        (
            &LinkEstimator,
            &(PanCalibrator {
                width: core.width,
                height: core.height,
                side_mm: Double { bits: rectify::MARKER_SIDE } * factor,
                detections: &detections,
                sin_cos: trig.0,
                acos: trig.1,
            }),
        ),
        curves,
        &(PanVision {
            keyframes: &core.keyframes,
            detections: &detections,
            width: core.width,
            height: core.height,
        }),
        factor,
        shifts_of(core.keyframes@),
        sharpness_of(core.keyframes@),
        detections@,
        core.width as int,
        core.height as int,
        close,
        attempt,
        plan,
    )
}

/// `out` is what a recording that can be processed gives: the wall that its
/// keyframes say, stitched from them, or the error that stops it.
pub open spec fn is_finished<
    T: Fn(Double, Double) -> (Double, Double),
    P: Fn(Double, Double) -> Double,
    SinCos: Fn(Double) -> (Double, Double),
    Acos: Fn(Double) -> Double,
>(
    curves: (&T, &P),
    trig: (&SinCos, &Acos),
    core: PanCore,
    factor: Double,
    close: bool,
    attempt: bool,
    out: Result<PanOutput, PanError>,
) -> bool {
    exists|detections: Vec<Vec<DetectedMarker>>, plan: Result<PanPlan, PanError>|
        {
            &&& are_all_detected(core.keyframes@, core.width, core.height, detections@)
            &&& #[trigger] is_planned(
                curves,
                trig,
                core,
                factor,
                close,
                attempt,
                detections,
                plan,
            )
            &&& match plan {
                Err(e) => out == Err::<PanOutput, PanError>(e),
                Ok(p) => {
                    &&& out matches Ok(o)
                    &&& o.plan == p
                    &&& o.keyframes_used == core.keyframes@.len()
                    &&& o.truncated == core.truncated
                    &&& wall::is_stitched(
                        p,
                        p.ranks(),
                        p.colours(core.keyframes@, core.width as int, core.height as int),
                        core.width as int,
                        core.height as int,
                        o.rgba@,
                    )
                },
            }
        }
}

proof fn lemma_no_markers_no_plan<
    T: Fn(Double, Double) -> (Double, Double),
    P: Fn(Double, Double) -> Double,
    SinCos: Fn(Double) -> (Double, Double),
    Acos: Fn(Double) -> Double,
>(
    curves: (&T, &P),
    trig: (&SinCos, &Acos),
    core: PanCore,
    factor: Double,
    close: bool,
    attempt: bool,
    detections: Vec<Vec<DetectedMarker>>,
)
    requires
        closure::anchor_of(detections@) is None,
    ensures
        is_planned(
            curves,
            trig,
            core,
            factor,
            close,
            attempt,
            detections,
            Err(PanError::AnchorMarkerNotFound),
        ),
{
    let calibrator = PanCalibrator {
        width: core.width,
        height: core.height,
        side_mm: Double { bits: rectify::MARKER_SIDE } * factor,
        detections: &detections,
        sin_cos: trig.0,
        acos: trig.1,
    };
    let sight = PanVision {
        keyframes: &core.keyframes,
        detections: &detections,
        width: core.width,
        height: core.height,
    };
    wall::lemma_not_anchored(
        (&LinkEstimator, &calibrator),
        curves,
        &sight,
        factor,
        shifts_of(core.keyframes@),
        sharpness_of(core.keyframes@),
        detections@,
        core.width as int,
        core.height as int,
        close,
        attempt,
    );
}

/// Whether a recording, once stopped, is processed.
pub open spec fn is_processable(core: PanCore, factor: Double) -> bool {
    pan::is_factor(factor) && core.keyframes@.len() > 0 && core.broken_after is None
}

/// `out` is the refusal of a recording that is not processed: nothing recorded, or
/// continuity lost after the keyframe that is named. No other recording is refused so.
pub open spec fn is_refused_for(
    core: PanCore,
    factor: Double,
    out: Result<PanOutput, PanError>,
) -> bool {
    pan::is_factor(factor) ==> {
        &&& out == Err::<PanOutput, PanError>(PanError::NoKeyframes) <==> core.keyframes@.len()
            == 0
        &&& match core.broken_after {
            Some(k) => {
                &&& out == Err::<PanOutput, PanError>(
                    PanError::TrackingLost { after_keyframe: k },
                )
                &&& k < core.keyframes@.len()
            },
            None => !(out matches Err(e) && e is TrackingLost),
        }
    }
}

fn finish_keyframes<
    T: Fn(Double, Double) -> (Double, Double),
    P: Fn(Double, Double) -> Double,
    SinCos: Fn(Double) -> (Double, Double),
    Acos: Fn(Double) -> Double,
>(
    curves: (&T, &P),
    trig: (&SinCos, &Acos),
    core: &PanCore,
    factor: Double,
    close: bool,
    attempt: bool,
) -> (out: Result<PanOutput, PanError>)
    requires
        core.wf(),
        detect::is_detectable(core.width as int, core.height as int),
        closure::are_curves(curves.0, curves.1),
        pose::are_curves(trig.0, trig.1),
    ensures
        is_finished(curves, trig, *core, factor, close, attempt, out),
        out matches Err(e) ==> wall::is_processing_error(e),
{
    let (width, height) = (core.width, core.height);
    let detections: Vec<Vec<DetectedMarker>> = detect_all(&core.keyframes, width, height);
    if width < detect::MIN_FRAME_SIDE || height < detect::MIN_FRAME_SIDE {
        let anchor: Result<usize, PanError> = anchor_keyframe(&detections);
        proof {
            if anchor is Ok {
                assert(detections@[anchor->Ok_0 as int]@.len() == 0);
            }
            lemma_no_markers_no_plan(curves, trig, *core, factor, close, attempt, detections);
        }
        return Err(PanError::AnchorMarkerNotFound);
    }
    let (shifts, sharpness) = measures(&core.keyframes);
    let calibrator: PanCalibrator<SinCos, Acos> = PanCalibrator {
        width,
        height,
        side_mm: Double::from_bits(rectify::MARKER_SIDE) * factor,
        detections: &detections,
        sin_cos: trig.0,
        acos: trig.1,
    };
    let sight: PanVision = PanVision {
        keyframes: &core.keyframes,
        detections: &detections,
        width,
        height,
    };
    let estimator: LinkEstimator = LinkEstimator;
    proof {
        detect::lemma_searched_sides(width as int, height as int);
    }
    let planned: Result<PanPlan, PanError> = process(
        (&estimator, &calibrator),
        curves,
        &sight,
        factor,
        &shifts,
        &sharpness,
        &detections,
        width,
        height,
        close,
        attempt,
    );
    let ghost plan = planned;
    proof {
        assert(is_planned(curves, trig, *core, factor, close, attempt, detections, plan));
        wall::lemma_processing_errors(
            (&estimator, &calibrator),
            curves,
            &sight,
            factor,
            shifts@,
            sharpness@,
            detections@,
            width as int,
            height as int,
            close,
            attempt,
            plan,
        );
    }
    match planned {
        Err(e) => Err(e),
        Ok(p) => Ok(stitch_frames(p, &core.keyframes, width, height, core.truncated)),
    }
}

impl PanCore {
    /// Run the full post-capture pipeline. `curves` are sine and cosine of the
    /// angle of a direction, and power; `trig` are sine and cosine of an angle,
    /// and arc cosine.
    pub fn finish<
        T: Fn(Double, Double) -> (Double, Double),
        P: Fn(Double, Double) -> Double,
        SinCos: Fn(Double) -> (Double, Double),
        Acos: Fn(Double) -> Double,
    >(
        &mut self,
        curves: (&T, &P),
        trig: (&SinCos, &Acos),
        correction_factor: Double,
        close_loop: bool,
    ) -> (out: Result<PanOutput, PanError>)
        requires
            old(self).wf(),
            is_processable(*old(self), correction_factor) ==> detect::is_detectable(
                old(self).width as int,
                old(self).height as int,
            ),
            closure::are_curves(curves.0, curves.1),
            pose::are_curves(trig.0, trig.1),
        ensures
            final(self).wf(),
            pan::is_stopped(*old(self), *final(self), correction_factor),
            !pan::is_factor(correction_factor) ==> out == Err::<PanOutput, PanError>(
                PanError::InvalidCorrectionFactor,
            ) && *final(self) == *old(self),
            is_refused_for(*old(self), correction_factor, out),
            match pan::refusal(*final(self), correction_factor) {
                Some(e) => out == Err::<PanOutput, PanError>(e),
                None => is_finished(
                    curves,
                    trig,
                    *final(self),
                    correction_factor,
                    close_loop,
                    true,
                    out,
                ),
            },
    {
        self.finish_with(curves, trig, correction_factor, close_loop, true)
    }

    /// [`PanCore::finish`] with the self-calibration stage switchable:
    /// `calibrate = false` forces the pinhole path.
    pub fn finish_with<
        T: Fn(Double, Double) -> (Double, Double),
        P: Fn(Double, Double) -> Double,
        SinCos: Fn(Double) -> (Double, Double),
        Acos: Fn(Double) -> Double,
    >(
        &mut self,
        curves: (&T, &P),
        trig: (&SinCos, &Acos),
        correction_factor: Double,
        close_loop: bool,
        calibrate: bool,
    ) -> (out: Result<PanOutput, PanError>)
        requires
            old(self).wf(),
            is_processable(*old(self), correction_factor) ==> detect::is_detectable(
                old(self).width as int,
                old(self).height as int,
            ),
            closure::are_curves(curves.0, curves.1),
            pose::are_curves(trig.0, trig.1),
        ensures
            final(self).wf(),
            pan::is_stopped(*old(self), *final(self), correction_factor),
            !pan::is_factor(correction_factor) ==> out == Err::<PanOutput, PanError>(
                PanError::InvalidCorrectionFactor,
            ) && *final(self) == *old(self),
            is_refused_for(*old(self), correction_factor, out),
            match pan::refusal(*final(self), correction_factor) {
                Some(e) => out == Err::<PanOutput, PanError>(e),
                None => is_finished(
                    curves,
                    trig,
                    *final(self),
                    correction_factor,
                    close_loop,
                    calibrate,
                    out,
                ),
            },
    {
        match self.finish_recording(correction_factor) {
            Err(e) => Err(e),
            Ok(()) => finish_keyframes(
                curves,
                trig,
                self,
                correction_factor,
                close_loop,
                calibrate,
            ),
        }
    }
}

} // verus!
