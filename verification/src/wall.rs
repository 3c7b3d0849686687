//! What a chained pan says of the wall: loop closure, Error Bound, and the
//! extent and resolution of the stitched image.
use vstd::prelude::*;

use crate::bound;
use crate::bound::{track_envelope, BoundModel};
use crate::calib::SelfCalibration;
use crate::chain;
use crate::chain::{chain_distances, keyframe_centre, wall_centres};
use crate::closure;
use crate::closure::{closure_keyframe, local_mm_per_px, Quad};
use crate::detect::DetectedMarker;
use crate::distortion;
use crate::distortion::Distortion;
use crate::double;
use crate::double::Double;
use crate::edge::Point;
use crate::homography;
use crate::homography::Homography;
use crate::linalg::Mat3;
use crate::links;
use crate::links::{find_marker, LinkQuality};
use crate::loop_closure;
use crate::loop_closure::{close_loop, farther_of, Closed, Closure};
use crate::marker::{LEFT_MARKER_ID, RIGHT_MARKER_ID};
use crate::pan::{Keyframe, PanError};
use crate::panorama;
use crate::panorama::{chain_keyframes, Chained};
use crate::rectify;
use crate::render;
use crate::render::{
    footprint_window, frame_corners, mean_marker_side_px, output_resolution, output_side, stitch,
    wall_extent, Colours, Extent, Ranks, Window,
};
use crate::sample;
use crate::sample::sample_rgb;
use crate::single;
use crate::vision::{Calibrator, Estimator, Vision};

verus! {

/// Everything about a stitched wall but its pixels.
pub struct PanPlan {
    /// Wall mm -> ideal px of every keyframe, after drift redistribution.
    pub chain: Vec<Mat3>,
    /// Wall positions that the keyframes look at.
    pub centres: Vec<Point>,
    pub dist: Distortion,
    pub extent: Extent,
    pub width: usize,
    pub height: usize,
    pub mm_per_px: Double,
    pub links: Vec<LinkQuality>,
    /// `None` when Marker B was never usable (open-loop result).
    pub closure: Option<Closure>,
    /// Marker B was detected but its closure had to be refused.
    pub closure_rejected: bool,
    pub calibration: Option<SelfCalibration>,
    pub bound: BoundModel,
    /// Wall x (mm) of the far end.
    pub far_x_mm: Double,
}

/// Wall positions after redistribution; one that cannot be seen any more stays
/// where it was.
pub open spec fn refreshed(centres: Seq<Point>, chain: Seq<Mat3>, w: int, h: int) -> Seq<Point> {
    Seq::new(
        centres.len(),
        |i: int|
            match chain::centre_on_wall(chain[i], w, h) {
                Some((x, y)) => [x, y],
                None => centres[i],
            },
    )
}

fn refresh_centres(
    centres: &Vec<Point>,
    chain: &Vec<Mat3>,
    width: usize,
    height: usize,
) -> (out: Vec<Point>)
    requires
        chain@.len() == centres@.len(),
        width < 0x20_0000_0000_0000,
        height < 0x20_0000_0000_0000,
    ensures
        out@ == refreshed(centres@, chain@, width as int, height as int),
{
    let two: Double = Double::from_bits(distortion::TWO);
    let cx: Double = Double::from_count(width as u64) / two;
    let cy: Double = Double::from_count(height as u64) / two;
    let mut out: Vec<Point> = Vec::new();
    let mut i: usize = 0;
    while i < centres.len()
        invariant
            chain@.len() == centres@.len(),
            cx == distortion::half(width as int),
            cy == distortion::half(height as int),
            i <= centres@.len(),
            out@.len() == i,
            forall|k: int|
                0 <= k < i ==> #[trigger] out@[k] == refreshed(
                    centres@,
                    chain@,
                    width as int,
                    height as int,
                )[k],
        decreases centres@.len() - i,
    {
        match keyframe_centre(&chain[i], &cx, &cy) {
            Some((x, y)) => {
                out.push([x, y]);
            },
            None => {
                out.push(centres[i]);
            },
        }
        i = i + 1;
    }
    assert(out@ =~= refreshed(centres@, chain@, width as int, height as int));
    out
}

/// Tracking noise of link `i` (mm^2), at the local scale of the keyframe it
/// leads to.
pub open spec fn link_variance(
    links: Seq<LinkQuality>,
    chain: Seq<Mat3>,
    centres: Seq<Point>,
    nominal: Double,
    i: int,
) -> Double {
    let mm_per_px = match closure::mm_per_px_at(chain[i + 1], centres[i + 1]) {
        Some(v) => v,
        None => nominal,
    };
    let e = double::larger(links[i].rms_px, Double { bits: closure::CORNER_SIGMA_FLOOR_PX })
        * mm_per_px;
    e * e
}

/// Tracking variance of keyframe `i`: a random walk outward from the anchor.
pub open spec fn walk_variance(
    links: Seq<LinkQuality>,
    chain: Seq<Mat3>,
    centres: Seq<Point>,
    nominal: Double,
    ka: int,
    i: int,
) -> Double
    decreases
            if i >= ka {
                i - ka
            } else {
                ka - i
            },
{
    if i == ka {
        Double { bits: 0 }
    } else if i > ka {
        walk_variance(links, chain, centres, nominal, ka, i - 1) + link_variance(
            links,
            chain,
            centres,
            nominal,
            i - 1,
        )
    } else {
        walk_variance(links, chain, centres, nominal, ka, i + 1) + link_variance(
            links,
            chain,
            centres,
            nominal,
            i,
        )
    }
}

/// Distance from the anchor and tracking variance of every keyframe.
pub open spec fn walk_points(
    links: Seq<LinkQuality>,
    chain: Seq<Mat3>,
    centres: Seq<Point>,
    nominal: Double,
    ka: int,
) -> Seq<(Double, Double)> {
    Seq::new(
        centres.len(),
        |i: int|
            (
                double::absolute(centres[i][0]),
                walk_variance(links, chain, centres, nominal, ka, i),
            ),
    )
}

fn variance_of_link(
    links: &Vec<LinkQuality>,
    chain: &Vec<Mat3>,
    centres: &Vec<Point>,
    nominal: &Double,
    i: usize,
) -> (v: Double)
    requires
        i < links@.len(),
        i + 1 < chain@.len(),
        chain@.len() == centres@.len(),
    ensures
        v == link_variance(links@, chain@, centres@, *nominal, i as int),
{
    assert(chain@.len() == chain.len());
    let mm_per_px: Double = match local_mm_per_px(&chain[i + 1], &centres[i + 1]) {
        Some(v) => v,
        None => *nominal,
    };
    let e: Double = links[i].rms_px.max(&Double::from_bits(closure::CORNER_SIGMA_FLOOR_PX))
        * mm_per_px;
    e * e
}

/// Accumulate tracking noise outward from the anchor.
fn walk(
    links: &Vec<LinkQuality>,
    chain: &Vec<Mat3>,
    centres: &Vec<Point>,
    nominal: &Double,
    ka: usize,
) -> (points: Vec<(Double, Double)>)
    requires
        links@.len() + 1 == chain@.len(),
        chain@.len() == centres@.len(),
        ka < chain@.len(),
    ensures
        points@ == walk_points(links@, chain@, centres@, *nominal, ka as int),
{
    let n: usize = centres.len();
    assert(chain@.len() == chain.len());
    let mut var: Vec<Double> = vec![Double::from_bits(0); n];
    let mut i: usize = ka + 1;
    while i < n
        invariant
            n == centres@.len(),
            links@.len() + 1 == n,
            chain@.len() == n,
            n <= usize::MAX,
            var@.len() == n,
            ka < i <= n,
            forall|k: int|
                ka <= k < i ==> #[trigger] var@[k] == walk_variance(
                    links@,
                    chain@,
                    centres@,
                    *nominal,
                    ka as int,
                    k,
                ),
        decreases n - i,
    {
        let v: Double = var[i - 1] + variance_of_link(links, chain, centres, nominal, i - 1);
        var.set(i, v);
        i = i + 1;
    }
    let mut j: usize = ka;
    while j > 0
        invariant
            n == centres@.len(),
            links@.len() + 1 == n,
            chain@.len() == n,
            n <= usize::MAX,
            var@.len() == n,
            j <= ka < n,
            forall|k: int|
                j <= k < n ==> #[trigger] var@[k] == walk_variance(
                    links@,
                    chain@,
                    centres@,
                    *nominal,
                    ka as int,
                    k,
                ),
        decreases j,
    {
        j = j - 1;
        let v: Double = var[j + 1] + variance_of_link(links, chain, centres, nominal, j);
        var.set(j, v);
    }
    let mut points: Vec<(Double, Double)> = Vec::new();
    let mut m: usize = 0;
    while m < n
        invariant
            n == centres@.len(),
            var@.len() == n,
            forall|k: int|
                0 <= k < n ==> #[trigger] var@[k] == walk_variance(
                    links@,
                    chain@,
                    centres@,
                    *nominal,
                    ka as int,
                    k,
                ),
            m <= n,
            points@.len() == m,
            forall|k: int|
                0 <= k < m ==> #[trigger] points@[k] == walk_points(
                    links@,
                    chain@,
                    centres@,
                    *nominal,
                    ka as int,
                )[k],
        decreases n - m,
    {
        points.push((centres[m][0].abs(), var[m]));
        m = m + 1;
    }
    assert(points@ =~= walk_points(links@, chain@, centres@, *nominal, ka as int));
    points
}

/// How much a fit of the anchor's four corners amplifies their noise over the
/// rendered height: perspective noise grows about quadratically with distance
/// in units of the marker side, and the closure constrains nothing vertically.
pub open spec fn lever(e: Extent, side: Double) -> Double {
    let two = Double { bits: closure::TWO };
    let reach = double::larger(
        (e.min_y - side.per(two)).size(),
        (e.max_y - side.per(two)).size(),
    ).per(side);
    double::larger((reach * reach).per(two), Double { bits: closure::ONE })
}

fn lever_of(e: &Extent, side: &Double) -> (l: Double)
    ensures
        l == lever(*e, *side),
{
    let two: Double = Double::from_bits(closure::TWO);
    let half: Double = *side / two;
    let reach: Double = (e.min_y - half).abs().max(&(e.max_y - half).abs()) / *side;
    (reach * reach / two).max(&Double::from_bits(closure::ONE))
}

/// mm per px at the centre of the anchor marker.
pub open spec fn anchor_mm_per_px(w: Mat3, side: Double) -> Option<Double> {
    let half = side.per(Double { bits: closure::TWO });
    closure::mm_per_px_at(w, [half, half])
}

/// The Error Bound of a pan.
#[verifier::opaque]
pub open spec fn is_bound_of(
    c: Chained,
    side: Double,
    chain: Seq<Mat3>,
    centres: Seq<Point>,
    e: Extent,
    nominal: Double,
    closed: Option<Closed>,
    b: BoundModel,
) -> bool {
    &&& b.sigma_a_mm == double::larger(
        c.anchor_rms,
        Double { bits: closure::CORNER_SIGMA_FLOOR_PX },
    ) * nominal * lever(e, side)
    &&& b.rel == (match closed {
        Some(l) => l.rel,
        None => Double { bits: bound::OPEN_LOOP_REL },
    })
    &&& b.closure_ramp == (match closed {
        Some(l) => Some(l.ramp),
        None => None,
    })
    &&& b.track@ == bound::envelope_of(
        walk_points(c.links@, chain, centres, nominal, c.ka as int),
    )
}

fn bound_of(
    c: &Chained,
    side_mm: &Double,
    chain: &Vec<Mat3>,
    centres: &Vec<Point>,
    e: &Extent,
    nominal: &Double,
    closed: &Option<Closed>,
) -> (b: BoundModel)
    requires
        c.wf(),
        chain@.len() == c.detections@.len(),
        centres@.len() == c.detections@.len(),
    ensures
        is_bound_of(*c, *side_mm, chain@, centres@, *e, *nominal, *closed, b),
{
    proof {
        reveal(is_bound_of);
    }
    let sigma: Double = c.anchor_rms.max(&Double::from_bits(closure::CORNER_SIGMA_FLOOR_PX))
        * *nominal;
    let points: Vec<(Double, Double)> = walk(&c.links, chain, centres, nominal, c.ka);
    let track: Vec<(Double, Double)> = track_envelope(&points);
    let rel: Double = match closed {
        Some(l) => l.rel,
        None => Double::from_bits(bound::OPEN_LOOP_REL),
    };
    let closure_ramp: Option<(Double, Double)> = match closed {
        Some(l) => Some(l.ramp),
        None => None,
    };
    BoundModel { sigma_a_mm: sigma * lever_of(e, side_mm), rel, closure_ramp, track }
}

/// `closed` is the loop, closed at keyframe `kb` unless that is refused.
pub open spec fn is_closed_at<
    T: Fn(Double, Double) -> (Double, Double),
    P: Fn(Double, Double) -> Double,
    V: Vision,
>(
    turn: &T,
    power: &P,
    vision: &V,
    c: Chained,
    side: Double,
    centres: Seq<Point>,
    kb: int,
    closed: Option<Closed>,
) -> bool {
    loop_closure::is_loop_closed(
        turn,
        power,
        side,
        c.chain@,
        centres,
        chain::distances_from(centres, c.ka as int),
        c.ka as int,
        kb,
        c.detections@,
        links::corners_of(c.detections@[kb]@, RIGHT_MARKER_ID)->0,
        vision.blurred(kb),
        closed,
    )
}

/// `closed` is the loop, closed where a keyframe shows Marker B and its closure
/// is not refused.
pub open spec fn is_closure_of<
    T: Fn(Double, Double) -> (Double, Double),
    P: Fn(Double, Double) -> Double,
    V: Vision,
>(
    turn: &T,
    power: &P,
    vision: &V,
    c: Chained,
    side: Double,
    sharpness: Seq<Double>,
    centres: Seq<Point>,
    close: bool,
    closed: Option<Closed>,
    rejected: bool,
) -> bool {
    match closure::closer_of(c.detections@, sharpness) {
        Some(kb) if close => rejected == closed is None && is_closed_at(
            turn,
            power,
            vision,
            c,
            side,
            centres,
            kb,
            closed,
        ),
        _ => closed is None && !rejected,
    }
}

fn find_closure<
    T: Fn(Double, Double) -> (Double, Double),
    P: Fn(Double, Double) -> Double,
    V: Vision,
>(
    turn: &T,
    power: &P,
    vision: &V,
    c: &Chained,
    side_mm: Double,
    sharpness: &Vec<Double>,
    centres: &Vec<Point>,
    close: bool,
) -> (out: (Option<Closed>, bool))
    requires
        closure::are_curves(turn, power),
        c.wf(),
        vision.frames() == c.detections@.len(),
        sharpness@.len() == c.detections@.len(),
        centres@.len() == c.detections@.len(),
        c.detections@.len() < 0x20_0000_0000_0000,
    ensures
        is_closure_of(
            turn,
            power,
            vision,
            *c,
            side_mm,
            sharpness@,
            centres@,
            close,
            out.0,
            out.1,
        ),
        out.0 matches Some(l) ==> l.w_chain@.len() == c.detections@.len(),
{
    if !close {
        return (None, false);
    }
    let kb: usize = match closure_keyframe(&c.detections, sharpness) {
        None => {
            return (None, false);
        },
        Some(kb) => kb,
    };
    let corners: Quad = match find_marker(&c.detections[kb], RIGHT_MARKER_ID) {
        Some(q) => q,
        None => {
            assert(false);
            return (None, false);
        },
    };
    let s: Vec<Double> = chain_distances(centres, c.ka);
    assert(s@.len() == centres@.len());
    let blur_px: Double = vision.blur(kb);
    let closed: Option<Closed> = close_loop(
        turn,
        power,
        side_mm,
        &c.chain,
        centres,
        &s,
        c.ka,
        kb,
        &c.detections,
        &corners,
        blur_px,
    );
    let rejected: bool = closed.is_none();
    proof {
        let at = kb as int;
        assert(at as usize == kb);
        assert(loop_closure::is_loop_closed(
            turn,
            power,
            side_mm,
            c.chain@,
            centres@,
            chain::distances_from(centres@, c.ka as int),
            c.ka as int,
            at,
            c.detections@,
            links::corners_of(c.detections@[at]@, RIGHT_MARKER_ID)->0,
            blur_px,
            closed,
        ));
        assert(is_closed_at(turn, power, vision, *c, side_mm, centres@, kb as int, closed));
    }
    (closed, rejected)
}

/// The centres of a chain of keyframes.
pub open spec fn are_centres(chain: Seq<Mat3>, w: int, h: int, centres: Seq<Point>) -> bool {
    &&& centres.len() == chain.len()
    &&& forall|i: int|
        0 <= i < centres.len() ==> chain::centre_on_wall(chain[i], w, h) == Some(
            ((#[trigger] centres[i])[0], centres[i][1]),
        )
}

/// A keyframe's centre cannot be seen on the wall.
pub open spec fn has_lost_centre(chain: Seq<Mat3>, w: int, h: int) -> bool {
    exists|i: int| 0 <= i < chain.len() && chain::centre_on_wall(#[trigger] chain[i], w, h) is None
}

/// The chain that a pan is rendered with.
pub open spec fn final_chain(c: Chained, closed: Option<Closed>) -> Seq<Mat3> {
    match closed {
        Some(l) => l.w_chain@,
        None => c.chain@,
    }
}

/// `plan` is what follows from the closure of a pan.
pub open spec fn is_plan_with(
    c: Chained,
    side: Double,
    w: int,
    h: int,
    centres: Seq<Point>,
    closed: Option<Closed>,
    rejected: bool,
    plan: Result<PanPlan, PanError>,
) -> bool {
    let chain = final_chain(c, closed);
    let now = refreshed(centres, chain, w, h);
    let limit = Double { bits: render::MAX_PAN_EXTENT_MM };
    match (
        anchor_mm_per_px(chain[c.ka as int], side),
        render::extent_of(chain, render::frame_quad(c.dist, w, h), limit),
    ) {
        (Some(nominal), Some(e)) => {
            let marker = links::corners_of(c.detections@[c.ka as int]@, LEFT_MARKER_ID)->0;
            let mm_per_px = render::resolution(
                e,
                side,
                render::mean_side(marker),
                render::MAX_PAN_OUT_W as int,
                render::MAX_PAN_OUT_H as int,
            );
            &&& plan matches Ok(p)
            &&& p.chain@ == chain
            &&& p.centres@ == now
            &&& p.dist == c.dist
            &&& p.extent == e
            &&& p.mm_per_px == mm_per_px
            &&& render::is_output_side(
                e.max_x - e.min_x,
                mm_per_px,
                render::MAX_PAN_OUT_W as int,
                p.width as int,
            )
            &&& render::is_output_side(
                e.max_y - e.min_y,
                mm_per_px,
                render::MAX_PAN_OUT_H as int,
                p.height as int,
            )
            &&& p.links@ == c.links@
            &&& p.closure == (match closed {
                Some(l) => Some(l.closure),
                None => None,
            })
            &&& p.closure_rejected == rejected
            &&& p.calibration == c.calibration
            &&& is_bound_of(c, side, chain, now, e, nominal, closed, p.bound)
            &&& p.far_x_mm == (match closed {
                Some(Closed { far_x: Some(x), .. }) => x,
                _ => loop_closure::farther(e.min_x, e.max_x),
            })
        },
        _ => plan == Err::<PanPlan, PanError>(PanError::DegenerateExtent),
    }
}

fn plan_with(
    c: Chained,
    side_mm: Double,
    width: usize,
    height: usize,
    centres: &Vec<Point>,
    closed: Option<Closed>,
    rejected: bool,
) -> (plan: Result<PanPlan, PanError>)
    requires
        c.wf(),
        centres@.len() == c.detections@.len(),
        closed matches Some(l) ==> l.w_chain@.len() == c.detections@.len(),
        width < 0x20_0000_0000_0000,
        height < 0x20_0000_0000_0000,
    ensures
        is_plan_with(
            c,
            side_mm,
            width as int,
            height as int,
            centres@,
            closed,
            rejected,
            plan,
        ),
        plan matches Ok(p) ==> 1 <= p.width <= render::MAX_PAN_OUT_W && 1 <= p.height
            <= render::MAX_PAN_OUT_H && p.chain@.len() == c.detections@.len() && p.centres@.len()
            == c.detections@.len(),
{
    let chain: &Vec<Mat3> = match &closed {
        Some(l) => &l.w_chain,
        None => &c.chain,
    };
    let now: Vec<Point> = refresh_centres(centres, chain, width, height);
    let half: Double = side_mm / Double::from_bits(closure::TWO);
    let nominal: Double = match local_mm_per_px(&chain[c.ka], &[half, half]) {
        None => {
            return Err(PanError::DegenerateExtent);
        },
        Some(v) => v,
    };
    let corners: Quad = frame_corners(&c.dist, width, height);
    let limit: Double = Double::from_bits(render::MAX_PAN_EXTENT_MM);
    let e: Extent = match wall_extent(chain, &corners, &limit) {
        None => {
            return Err(PanError::DegenerateExtent);
        },
        Some(e) => e,
    };
    let marker: Quad = match find_marker(&c.detections[c.ka], LEFT_MARKER_ID) {
        Some(q) => q,
        None => {
            assert(false);
            return Err(PanError::AnchorMarkerNotFound);
        },
    };
    let mm_per_px: Double = output_resolution(
        &e,
        &side_mm,
        &mean_marker_side_px(&marker),
        render::MAX_PAN_OUT_W,
        render::MAX_PAN_OUT_H,
    );
    let out_w: usize = output_side(&(e.max_x - e.min_x), &mm_per_px, render::MAX_PAN_OUT_W);
    let out_h: usize = output_side(&(e.max_y - e.min_y), &mm_per_px, render::MAX_PAN_OUT_H);
    let bound: BoundModel = bound_of(&c, &side_mm, chain, &now, &e, &nominal, &closed);
    let far_x_mm: Double = match &closed {
        Some(Closed { far_x: Some(x), .. }) => *x,
        _ => farther_of(e.min_x, e.max_x),
    };
    let closure: Option<Closure> = match &closed {
        Some(l) => Some(l.closure),
        None => None,
    };
    let (dist, links, calibration) = (c.dist, c.links, c.calibration);
    let chain: Vec<Mat3> = match closed {
        Some(l) => l.w_chain,
        None => c.chain,
    };
    Ok(
        PanPlan {
            chain,
            centres: now,
            dist,
            extent: e,
            width: out_w,
            height: out_h,
            mm_per_px,
            links,
            closure,
            closure_rejected: rejected,
            calibration,
            bound,
            far_x_mm,
        },
    )
}

/// `plan` is what a chained pan says of the wall.
pub open spec fn is_plan<
    T: Fn(Double, Double) -> (Double, Double),
    P: Fn(Double, Double) -> Double,
    V: Vision,
>(
    turn: &T,
    power: &P,
    vision: &V,
    c: Chained,
    side: Double,
    sharpness: Seq<Double>,
    w: int,
    h: int,
    close: bool,
    plan: Result<PanPlan, PanError>,
) -> bool {
    if has_lost_centre(c.chain@, w, h) {
        plan == Err::<PanPlan, PanError>(PanError::DegenerateExtent)
    } else {
        exists|centres: Seq<Point>, closed: Option<Closed>, rejected: bool|
            {
                &&& #[trigger] are_centres(c.chain@, w, h, centres)
                &&& is_closure_of(
                    turn,
                    power,
                    vision,
                    c,
                    side,
                    sharpness,
                    centres,
                    close,
                    closed,
                    rejected,
                )
                &&& #[trigger] is_plan_with(c, side, w, h, centres, closed, rejected, plan)
            }
    }
}

/// Close the loop of a chained pan where Marker B allows it, bound the error, and
/// lay out the stitched image. `turn` gives sine and cosine of the angle of a
/// direction, `power` a power, `vision` sees the keyframes.
pub fn plan_wall<
    T: Fn(Double, Double) -> (Double, Double),
    P: Fn(Double, Double) -> Double,
    V: Vision,
>(
    turn: &T,
    power: &P,
    vision: &V,
    c: Chained,
    side_mm: Double,
    sharpness: &Vec<Double>,
    width: usize,
    height: usize,
    close: bool,
) -> (plan: Result<PanPlan, PanError>)
    requires
        closure::are_curves(turn, power),
        c.wf(),
        vision.frames() == c.detections@.len(),
        sharpness@.len() == c.detections@.len(),
        c.detections@.len() < 0x20_0000_0000_0000,
        width < 0x20_0000_0000_0000,
        height < 0x20_0000_0000_0000,
    ensures
        is_plan(
            turn,
            power,
            vision,
            c,
            side_mm,
            sharpness@,
            width as int,
            height as int,
            close,
            plan,
        ),
        plan matches Ok(p) ==> 1 <= p.width <= render::MAX_PAN_OUT_W && 1 <= p.height
            <= render::MAX_PAN_OUT_H && p.chain@.len() == c.detections@.len() && p.centres@.len()
            == c.detections@.len(),
{
    let centres: Vec<Point> = match wall_centres(&c.chain, width, height) {
        Err(e) => {
            return Err(e);
        },
        Ok(v) => v,
    };
    let ghost given = c;
    let (closed, rejected) = find_closure(
        turn,
        power,
        vision,
        &c,
        side_mm,
        sharpness,
        &centres,
        close,
    );
    let ghost found = closed;
    let plan: Result<PanPlan, PanError> = plan_with(
        c,
        side_mm,
        width,
        height,
        &centres,
        closed,
        rejected,
    );
    proof {
        let (w, h) = (width as int, height as int);
        assert(are_centres(given.chain@, w, h, centres@));
        assert(is_plan_with(given, side_mm, w, h, centres@, found, rejected, plan));
    }
    plan
}

/// `plan` is what a recorded pan says of the wall: it fails as the chain does, and
/// else follows from it. The marker's true side is its nominal side times the
/// print-scale factor.
pub open spec fn is_processed<
    V: Vision,
    E: Estimator,
    K: Calibrator,
    T: Fn(Double, Double) -> (Double, Double),
    P: Fn(Double, Double) -> Double,
>(
    estimation: (&E, &K),
    curves: (&T, &P),
    vision: &V,
    factor: Double,
    shifts: Seq<Point>,
    sharpness: Seq<Double>,
    detections: Seq<Vec<DetectedMarker>>,
    w: int,
    h: int,
    close: bool,
    attempt: bool,
    plan: Result<PanPlan, PanError>,
) -> bool {
    exists|chained: Result<Chained, PanError>|
        {
            &&& #[trigger] panorama::is_chained(
                vision,
                estimation.0,
                estimation.1,
                Double { bits: rectify::MARKER_SIDE } * factor,
                shifts,
                detections,
                w,
                h,
                attempt,
                chained,
            )
            &&& match chained {
                Err(e) => plan == Err::<PanPlan, PanError>(e),
                Ok(c) => is_plan(
                    curves.0,
                    curves.1,
                    vision,
                    c,
                    Double { bits: rectify::MARKER_SIDE } * factor,
                    sharpness,
                    w,
                    h,
                    close,
                    plan,
                ),
            }
        }
}

/// Errors that processing ends in.
pub open spec fn is_processing_error(e: PanError) -> bool {
    match e {
        PanError::AnchorMarkerNotFound => true,
        PanError::AnchorEstimateFailed => true,
        PanError::WeakSegment { .. } => true,
        PanError::DegenerateExtent => true,
        _ => false,
    }
}

/// Processing ends in no error but its own.
pub proof fn lemma_processing_errors<
    V: Vision,
    E: Estimator,
    K: Calibrator,
    T: Fn(Double, Double) -> (Double, Double),
    P: Fn(Double, Double) -> Double,
>(
    estimation: (&E, &K),
    curves: (&T, &P),
    vision: &V,
    factor: Double,
    shifts: Seq<Point>,
    sharpness: Seq<Double>,
    detections: Seq<Vec<DetectedMarker>>,
    w: int,
    h: int,
    close: bool,
    attempt: bool,
    plan: Result<PanPlan, PanError>,
)
    requires
        is_processed(
            estimation,
            curves,
            vision,
            factor,
            shifts,
            sharpness,
            detections,
            w,
            h,
            close,
            attempt,
            plan,
        ),
    ensures
        plan matches Err(e) ==> is_processing_error(e),
{
}

/// A pan that does not show Marker A has no plan.
pub proof fn lemma_not_anchored<
    V: Vision,
    E: Estimator,
    K: Calibrator,
    T: Fn(Double, Double) -> (Double, Double),
    P: Fn(Double, Double) -> Double,
>(
    estimation: (&E, &K),
    curves: (&T, &P),
    vision: &V,
    factor: Double,
    shifts: Seq<Point>,
    sharpness: Seq<Double>,
    detections: Seq<Vec<DetectedMarker>>,
    w: int,
    h: int,
    close: bool,
    attempt: bool,
)
    requires
        closure::anchor_of(detections) is None,
    ensures
        is_processed(
            estimation,
            curves,
            vision,
            factor,
            shifts,
            sharpness,
            detections,
            w,
            h,
            close,
            attempt,
            Err(PanError::AnchorMarkerNotFound),
        ),
{
    let chained: Result<Chained, PanError> = Err(PanError::AnchorMarkerNotFound);
    assert(panorama::is_chained(
        vision,
        estimation.0,
        estimation.1,
        Double { bits: rectify::MARKER_SIDE } * factor,
        shifts,
        detections,
        w,
        h,
        attempt,
        chained,
    ));
}

/// A pan that never shows Marker A is refused, and for that reason.
pub proof fn law_missing_anchor_is_reported<
    V: Vision,
    E: Estimator,
    K: Calibrator,
    T: Fn(Double, Double) -> (Double, Double),
    P: Fn(Double, Double) -> Double,
>(
    estimation: (&E, &K),
    curves: (&T, &P),
    vision: &V,
    factor: Double,
    shifts: Seq<Point>,
    sharpness: Seq<Double>,
    detections: Seq<Vec<DetectedMarker>>,
    w: int,
    h: int,
    close: bool,
    attempt: bool,
    plan: Result<PanPlan, PanError>,
)
    requires
        closure::anchor_of(detections) is None,
        is_processed(
            estimation,
            curves,
            vision,
            factor,
            shifts,
            sharpness,
            detections,
            w,
            h,
            close,
            attempt,
            plan,
        ),
    ensures
        plan == Err::<PanPlan, PanError>(PanError::AnchorMarkerNotFound),
{
}

/// An untrackable segment is named: it joins two neighbouring keyframes, and comes
/// with the number of correspondences that were found between them.
pub proof fn law_weak_segment_is_named<
    V: Vision,
    E: Estimator,
    K: Calibrator,
    T: Fn(Double, Double) -> (Double, Double),
    P: Fn(Double, Double) -> Double,
>(
    estimation: (&E, &K),
    curves: (&T, &P),
    vision: &V,
    factor: Double,
    shifts: Seq<Point>,
    sharpness: Seq<Double>,
    detections: Seq<Vec<DetectedMarker>>,
    w: int,
    h: int,
    close: bool,
    attempt: bool,
    plan: Result<PanPlan, PanError>,
)
    requires
        is_processed(
            estimation,
            curves,
            vision,
            factor,
            shifts,
            sharpness,
            detections,
            w,
            h,
            close,
            attempt,
            plan,
        ),
        plan matches Err(e) && e is WeakSegment,
        detections.len() <= usize::MAX,
    ensures
        ({
            let e = plan->Err_0;
            &&& e->to_keyframe == e->from_keyframe + 1
            &&& e->to_keyframe < detections.len()
            &&& e->matches as int == links::link_pairs(
                vision,
                shifts,
                detections,
                e->from_keyframe as int,
            ).len() as usize
        }),
{
    let side = Double { bits: rectify::MARKER_SIDE } * factor;
    let chained = choose|chained: Result<Chained, PanError>|
        {
            &&& #[trigger] panorama::is_chained(
                vision,
                estimation.0,
                estimation.1,
                Double { bits: rectify::MARKER_SIDE } * factor,
                shifts,
                detections,
                w,
                h,
                attempt,
                chained,
            )
            &&& match chained {
                Err(e) => plan == Err::<PanPlan, PanError>(e),
                Ok(c) => is_plan(
                    curves.0,
                    curves.1,
                    vision,
                    c,
                    side,
                    sharpness,
                    w,
                    h,
                    close,
                    plan,
                ),
            }
        };
    assert(chained is Err);
    panorama::lemma_weak_segment(
        vision,
        estimation.0,
        estimation.1,
        side,
        shifts,
        detections,
        w,
        h,
        attempt,
        chained,
    );
}

/// Process a recorded pan: chain its keyframes, close the loop, bound the error
/// and lay out the stitched wall. `vision` sees the keyframes,
/// `estimation` estimates homographies and calibrates, `curves` are sine/cosine
/// of a direction and power.
pub fn process<
    V: Vision,
    E: Estimator,
    K: Calibrator,
    T: Fn(Double, Double) -> (Double, Double),
    P: Fn(Double, Double) -> Double,
>(
    estimation: (&E, &K),
    curves: (&T, &P),
    vision: &V,
    factor: Double,
    shifts: &Vec<Point>,
    sharpness: &Vec<Double>,
    detections: &Vec<Vec<DetectedMarker>>,
    width: usize,
    height: usize,
    close: bool,
    attempt: bool,
) -> (plan: Result<PanPlan, PanError>)
    requires
        vision.frames() == detections@.len(),
        estimation.1.keyframes() == detections@.len(),
        closure::are_curves(curves.0, curves.1),
        shifts@.len() == detections@.len(),
        sharpness@.len() == detections@.len(),
        detections@.len() < 0x20_0000_0000_0000,
        width < 0x20_0000_0000_0000,
        height < 0x20_0000_0000_0000,
    ensures
        is_processed(
            estimation,
            curves,
            vision,
            factor,
            shifts@,
            sharpness@,
            detections@,
            width as int,
            height as int,
            close,
            attempt,
            plan,
        ),
        plan matches Ok(p) ==> 1 <= p.width <= render::MAX_PAN_OUT_W && 1 <= p.height
            <= render::MAX_PAN_OUT_H && p.chain@.len() == detections@.len() && p.centres@.len()
            == detections@.len(),
{
    let side_mm: Double = Double::from_bits(rectify::MARKER_SIDE) * factor;
    let chained: Result<Chained, PanError> = chain_keyframes(
        vision,
        estimation.0,
        estimation.1,
        side_mm,
        shifts,
        detections,
        width,
        height,
        attempt,
    );
    let ghost found = chained;
    proof {
        assert(panorama::is_chained(
            vision,
            estimation.0,
            estimation.1,
            Double { bits: rectify::MARKER_SIDE } * factor,
            shifts@,
            detections@,
            width as int,
            height as int,
            attempt,
            found,
        ));
    }
    match chained {
        Err(e) => Err(e),
        Ok(c) => plan_wall(
            curves.0,
            curves.1,
            vision,
            c,
            side_mm,
            sharpness,
            width,
            height,
            close,
        ),
    }
}

/// Everything the recorded-pan pipeline produces.
pub struct PanOutput {
    /// Stitched full-wall Rectified Wall Image, tightly packed RGBA.
    pub rgba: Vec<u8>,
    pub plan: PanPlan,
    pub keyframes_used: usize,
    /// True when the keyframe cap cut the recording short.
    pub truncated: bool,
}

impl PanOutput {
    pub fn bound_near_anchor_mm(&self) -> (b: Double)
        ensures
            b == self.plan.bound.bound_at(Double { bits: 0 }),
    {
        self.plan.bound.bound_at_mm(Double::from_bits(0))
    }

    pub fn bound_far_end_mm(&self) -> (b: Double)
        ensures
            b == self.plan.bound.bound_at(self.plan.far_x_mm),
    {
        self.plan.bound.bound_at_mm(self.plan.far_x_mm)
    }

    /// Worst per-position component over the span that the two markers bracket:
    /// the bound never falls with |x|, so it is that of the far end. Rendered
    /// pixels beyond the markers can exceed it.
    pub fn bound_worst_mm(&self) -> (b: Double)
        ensures
            b == self.plan.bound.bound_at(self.plan.far_x_mm),
            self.plan.bound.wf() && self.plan.far_x_mm.finite() ==> forall|x: Double|
                x.finite() && x.magnitude() <= self.plan.far_x_mm.magnitude()
                    ==> #[trigger] self.plan.bound.bound_at(x).at_most(b),
    {
        proof {
            let m = self.plan.bound;
            let far = self.plan.far_x_mm;
            if m.wf() && far.finite() {
                assert forall|x: Double|
                    x.finite() && x.magnitude() <= far.magnitude() implies #[trigger] m.bound_at(
                    x,
                ).at_most(m.bound_at(far)) by {
                    bound::law_bound_grows_with_distance(m, x, far);
                }
            }
        }
        self.bound_far_end_mm()
    }
}

/// The output pixels that each keyframe of a plan can reach; the frames are `w` by
/// `h`.
pub open spec fn are_windows(plan: PanPlan, w: int, h: int, windows: Seq<Window>) -> bool {
    &&& windows.len() == plan.chain@.len()
    &&& forall|i: int|
        0 <= i < windows.len() ==> render::is_window(
            plan.chain@[i],
            render::frame_quad(plan.dist, w, h),
            plan.extent,
            plan.mm_per_px,
            plan.width as int,
            plan.height as int,
            #[trigger] windows[i],
        )
}

/// Every pixel comes from the nearest keyframe that covers it.
pub open spec fn is_stitched(
    plan: PanPlan,
    r: Ranks,
    c: Colours,
    w: int,
    h: int,
    rgba: Seq<u8>,
) -> bool {
    exists|windows: Seq<Window>| #[trigger]
        are_windows(plan, w, h, windows) && render::is_mosaic(
            rgba,
            r,
            c,
            windows,
            plan.width as int,
            plan.height as int,
        )
}

fn plan_windows(plan: &PanPlan, width: usize, height: usize) -> (windows: Vec<Window>)
    requires
        width < 0x20_0000_0000_0000,
        height < 0x20_0000_0000_0000,
        1 <= plan.width <= render::MAX_PAN_OUT_W,
        1 <= plan.height <= render::MAX_PAN_OUT_H,
    ensures
        are_windows(*plan, width as int, height as int, windows@),
{
    let corners: Quad = frame_corners(&plan.dist, width, height);
    let mut windows: Vec<Window> = Vec::new();
    while windows.len() < plan.chain.len()
        invariant
            1 <= plan.width <= render::MAX_PAN_OUT_W,
            1 <= plan.height <= render::MAX_PAN_OUT_H,
            corners == render::frame_quad(plan.dist, width as int, height as int),
            windows@.len() <= plan.chain@.len(),
            forall|i: int|
                0 <= i < windows@.len() ==> render::is_window(
                    plan.chain@[i],
                    corners,
                    plan.extent,
                    plan.mm_per_px,
                    plan.width as int,
                    plan.height as int,
                    #[trigger] windows@[i],
                ),
        decreases plan.chain@.len() - windows@.len(),
    {
        let w: Window = footprint_window(
            &plan.chain[windows.len()],
            &corners,
            &plan.extent,
            &plan.mm_per_px,
            plan.width,
            plan.height,
        );
        windows.push(w);
    }
    windows
}

/// Stitch a planned wall of `width` by `height` keyframes. `rank` and `colour` as
/// in [`stitch`].
pub fn stitch_wall<
    R: Fn(usize, usize, usize) -> Double,
    C: Fn(usize, usize, usize) -> Option<[u8; 3]>,
>(
    plan: PanPlan,
    rank: &R,
    colour: &C,
    width: usize,
    height: usize,
    truncated: bool,
) -> (out: PanOutput)
    requires
        render::are_painters(
            rank,
            colour,
            plan.chain@.len() as int,
            plan.width as int,
            plan.height as int,
        ),
        width < 0x20_0000_0000_0000,
        height < 0x20_0000_0000_0000,
        1 <= plan.width <= render::MAX_PAN_OUT_W,
        1 <= plan.height <= render::MAX_PAN_OUT_H,
    ensures
        out.plan == plan,
        out.keyframes_used == plan.chain@.len(),
        out.truncated == truncated,
        forall|r: Ranks, c: Colours| #[trigger]
            render::paint(rank, colour, r, c) ==> is_stitched(
                plan,
                r,
                c,
                width as int,
                height as int,
                out.rgba@,
            ),
{
    assert(plan.width * plan.height <= render::MAX_PAN_OUT_W * render::MAX_PAN_OUT_H)
        by (nonlinear_arith)
        requires
            plan.width <= render::MAX_PAN_OUT_W,
            plan.height <= render::MAX_PAN_OUT_H,
    ;
    let windows: Vec<Window> = plan_windows(&plan, width, height);
    let rgba: Vec<u8> = stitch(rank, colour, &windows, plan.width, plan.height);
    let keyframes_used: usize = plan.chain.len();
    assert(are_windows(plan, width as int, height as int, windows@));
    PanOutput { rgba, plan, keyframes_used, truncated }
}

/// Squared distance of two points of the wall, in single precision.
pub open spec fn square_distance(p: Point, q: Point) -> Double {
    single::nearest_single(
        (p[0] - q[0]) * (p[0] - q[0]) + (p[1] - q[1]) * (p[1] - q[1]),
    )
}

impl PanPlan {
    /// Where on the wall the centre of an output pixel is.
    pub open spec fn wall_point(self, x: int, y: int) -> Point {
        render::pixel_centre([self.extent.min_x, self.extent.min_y], self.mm_per_px, x, y)
    }

    /// How far what a keyframe looks at is from an output pixel.
    pub open spec fn ranks(self) -> Ranks {
        |i: int, x: int, y: int| square_distance(self.wall_point(x, y), self.centres@[i])
    }

    /// What keyframe `i` shows at an output pixel, if it covers it. The chain maps
    /// the wall to ideal px; the real pixels are where the lens bends them to.
    pub open spec fn colour_in(
        self,
        rgba: Seq<u8>,
        w: int,
        h: int,
        i: int,
        x: int,
        y: int,
    ) -> Option<
        [u8; 3],
    > {
        let p = self.wall_point(x, y);
        match homography::image_of(self.chain@[i], p[0], p[1]) {
            None => None,
            Some((u, v)) => {
                let s = self.dist.distorted([u, v]);
                sample::colour_at(rgba, w, h, s[0], s[1])
            },
        }
    }

    /// What each keyframe shows at an output pixel, if it covers it.
    pub open spec fn colours(self, frames: Seq<Keyframe>, w: int, h: int) -> Colours {
        |i: int, x: int, y: int| self.colour_in(frames[i].rgba@, w, h, i, x, y)
    }

    fn wall_at(&self, x: usize, y: usize) -> (p: Point)
        requires
            x < 0x20_0000_0000_0000,
            y < 0x20_0000_0000_0000,
        ensures
            p == self.wall_point(x as int, y as int),
    {
        let half: Double = Double::from_bits(render::ONE_HALF);
        [
            self.extent.min_x + (Double::from_count(x as u64) + half) * self.mm_per_px,
            self.extent.min_y + (Double::from_count(y as u64) + half) * self.mm_per_px,
        ]
    }

    fn rank_at(&self, i: usize, x: usize, y: usize) -> (r: Double)
        requires
            i < self.centres@.len(),
            x < 0x20_0000_0000_0000,
            y < 0x20_0000_0000_0000,
        ensures
            r == (self.ranks())(i as int, x as int, y as int),
    {
        let p: Point = self.wall_at(x, y);
        let dx: Double = p[0] - self.centres[i][0];
        let dy: Double = p[1] - self.centres[i][1];
        (dx * dx + dy * dy).to_single()
    }

    fn colour_at(
        &self,
        rgba: &[u8],
        w: usize,
        h: usize,
        i: usize,
        x: usize,
        y: usize,
    ) -> (c: Option<
        [u8; 3],
    >)
        requires
            i < self.chain@.len(),
            x < 0x20_0000_0000_0000,
            y < 0x20_0000_0000_0000,
            0 < w < 0x20_0000_0000_0000,
            0 < h < 0x20_0000_0000_0000,
            rgba@.len() == w * h * 4,
        ensures
            c == self.colour_in(rgba@, w as int, h as int, i as int, x as int, y as int),
    {
        let p: Point = self.wall_at(x, y);
        match Homography(self.chain[i]).apply(p[0], p[1]) {
            None => None,
            Some((u, v)) => {
                let s: Point = self.dist.distort([u, v]);
                sample_rgb(rgba, w, h, s[0], s[1])
            },
        }
    }
}

/// Stitch a planned wall from its `width` by `height` keyframes.
pub fn stitch_frames(
    plan: PanPlan,
    frames: &Vec<Keyframe>,
    width: usize,
    height: usize,
    truncated: bool,
) -> (out: PanOutput)
    requires
        0 < width < 0x20_0000_0000_0000,
        0 < height < 0x20_0000_0000_0000,
        frames@.len() == plan.chain@.len(),
        plan.centres@.len() == plan.chain@.len(),
        forall|i: int|
            0 <= i < frames@.len() ==> (#[trigger] frames@[i]).rgba@.len() == width * height * 4,
        1 <= plan.width <= render::MAX_PAN_OUT_W,
        1 <= plan.height <= render::MAX_PAN_OUT_H,
    ensures
        out.plan == plan,
        out.keyframes_used == plan.chain@.len(),
        out.truncated == truncated,
        is_stitched(
            plan,
            plan.ranks(),
            plan.colours(frames@, width as int, height as int),
            width as int,
            height as int,
            out.rgba@,
        ),
{
    let windows: Vec<Window> = plan_windows(&plan, width, height);
    assert(plan.width * plan.height <= render::MAX_PAN_OUT_W * render::MAX_PAN_OUT_H)
        by (nonlinear_arith)
        requires
            plan.width <= render::MAX_PAN_OUT_W,
            plan.height <= render::MAX_PAN_OUT_H,
    ;
    let layout: &PanPlan = &plan;
    let rank = |i: usize, x: usize, y: usize| -> (r: Double)
        requires
            i < layout.centres@.len() && x < 0x20_0000_0000_0000 && y < 0x20_0000_0000_0000,
        ensures
            r == (layout.ranks())(i as int, x as int, y as int),
        { layout.rank_at(i, x, y) };
    let colour = |i: usize, x: usize, y: usize| -> (c: Option<[u8; 3]>)
        requires
            i < frames@.len() && i < layout.chain@.len() && x < 0x20_0000_0000_0000 && y
                < 0x20_0000_0000_0000,
        ensures
            c == (layout.colours(frames@, width as int, height as int))(
                i as int,
                x as int,
                y as int,
            ),
        { layout.colour_at(frames[i].rgba.as_slice(), width, height, i, x, y) };
    assert(render::paint(
        &rank,
        &colour,
        plan.ranks(),
        plan.colours(frames@, width as int, height as int),
    ));
    let rgba: Vec<u8> = stitch(&rank, &colour, &windows, plan.width, plan.height);
    let keyframes_used: usize = plan.chain.len();
    assert(are_windows(plan, width as int, height as int, windows@));
    PanOutput { rgba, plan, keyframes_used, truncated }
}

} // verus!
