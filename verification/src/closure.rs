//! Loop closure: which detection of Marker B closes the loop, how far the chain
//! has drifted there, whether the drift is credible, and how it is
//! redistributed over the chain.
use vstd::prelude::*;

use crate::chain;
use crate::detect;
use crate::detect::{quad_area, DetectedMarker};
use crate::double;
use crate::double::Double;
use crate::edge::Point;
use crate::homography;
use crate::homography::Homography;
use crate::linalg;
use crate::linalg::{mat3_inv, mat3_mul, Mat3};
use crate::links;
use crate::links::find_marker;
use crate::marker::{LEFT_MARKER_ID, RIGHT_MARKER_ID};
use crate::pan::PanError;

verus! {

/// Farthest plausible back-projection (mm): the bits of 16000.0.
pub const MAX_BACK_PROJECTION_MM: u64 = 0x40cf_4000_0000_0000;

/// Drift beyond this (mm) is not credible chain drift: the bits of 50.0.
pub const MAX_CLOSURE_DISCREPANCY_MM: u64 = 0x4049_0000_0000_0000;

/// Scale corrections beyond this are not credible: the bits of 0.03.
pub const MAX_CLOSURE_SCALE_DEV: u64 = 0x3f9e_b851_eb85_1eb8;

/// Least sharpness a detection is weighted with: the bits of 1e-9.
pub const LEAST_SHARPNESS: u64 = 0x3e11_2e0b_e826_d695;

/// Chain spans below this (mm) count as none: the bits of 1e-9.
pub const LEAST_SPAN: u64 = 0x3e11_2e0b_e826_d695;

/// Least scatter of a square: the bits of 1e-12.
pub const LEAST_SCATTER: u64 = 0x3d71_9799_812d_ea11;

/// Floor of corner localization noise (px): the bits of 0.30.
pub const CORNER_SIGMA_FLOOR_PX: u64 = 0x3fd3_3333_3333_3333;

/// Least px per mm that a scale is read from: the bits of 1e-9.
pub const LEAST_PX_PER_MM: u64 = 0x3e11_2e0b_e826_d695;

/// The bits of the square root of 2.
pub const SQRT_2: u64 = 0x3ff6_a09e_667f_3bcd;

/// The bits of 1.0.
pub const ONE: u64 = 0x3ff0_0000_0000_0000;

/// The bits of 2.0.
pub const TWO: u64 = 0x4000_0000_0000_0000;

/// The bits of 4.0.
pub const FOUR: u64 = 0x4010_0000_0000_0000;

/// A quad on the wall or in an image.
pub type Quad = [Point; 4];

/// The last of the first `n` entries with the highest score, if one has a
/// score.
pub open spec fn best_scored(scores: Seq<Option<Double>>, n: int) -> Option<int>
    decreases n,
{
    if n <= 0 {
        None
    } else {
        match (best_scored(scores, n - 1), scores[n - 1]) {
            (best, None) => best,
            (None, Some(_)) => Some(n - 1),
            (Some(b), Some(v)) => if v.less(scores[b]->0) {
                Some(b)
            } else {
                Some(n - 1)
            },
        }
    }
}

/// The last entry with the highest score, if one has a score.
pub fn pick_best(scores: &Vec<Option<Double>>) -> (best: Option<usize>)
    ensures
        best is Some <==> best_scored(scores@, scores@.len() as int) is Some,
        best matches Some(b) ==> best_scored(scores@, scores@.len() as int) == Some(b as int)
            && b < scores@.len() && scores@[b as int] is Some,
{
    let mut best: Option<(usize, Double)> = None;
    let mut i: usize = 0;
    while i < scores.len()
        invariant
            i <= scores@.len(),
            best is Some <==> best_scored(scores@, i as int) is Some,
            best matches Some((b, v)) ==> best_scored(scores@, i as int) == Some(b as int) && b < i
                && scores@[b as int] == Some(v),
        decreases scores@.len() - i,
    {
        if let Some(v) = scores[i] {
            let replace: bool = match &best {
                None => true,
                Some((_, highest)) => !v.lt(highest),
            };
            if replace {
                best = Some((i, v));
            }
        }
        i = i + 1;
    }
    match best {
        None => None,
        Some((b, _)) => Some(b),
    }
}

/// Areas of the marker with this ID in every keyframe that shows it.
pub open spec fn areas_of(detections: Seq<Vec<DetectedMarker>>, id: u16) -> Seq<Option<Double>> {
    detections.map_values(
        |d: Vec<DetectedMarker>|
            match links::corners_of(d@, id) {
                Some(c) => Some(detect::area_of(c)),
                None => None,
            },
    )
}

fn marker_areas(detections: &Vec<Vec<DetectedMarker>>, id: u16) -> (areas: Vec<Option<Double>>)
    ensures
        areas@ == areas_of(detections@, id),
{
    let mut areas: Vec<Option<Double>> = Vec::new();
    let mut i: usize = 0;
    while i < detections.len()
        invariant
            i <= detections@.len(),
            areas@.len() == i,
            forall|k: int|
                0 <= k < i ==> #[trigger] areas@[k] == (match links::corners_of(
                    detections@[k]@,
                    id,
                ) {
                    Some(c) => Some(detect::area_of(c)),
                    None => None,
                }),
        decreases detections@.len() - i,
    {
        match find_marker(&detections[i], id) {
            Some(c) => {
                areas.push(Some(quad_area(&c)));
            },
            None => {
                areas.push(None);
            },
        }
        i = i + 1;
    }
    assert(areas@ =~= areas_of(detections@, id));
    areas
}

/// The keyframe that anchors the chain: the largest view of Marker A.
pub open spec fn anchor_of(detections: Seq<Vec<DetectedMarker>>) -> Option<int> {
    best_scored(areas_of(detections, LEFT_MARKER_ID), detections.len() as int)
}

/// Anchor the chain at the best Marker A detection.
pub fn anchor_keyframe(detections: &Vec<Vec<DetectedMarker>>) -> (ka: Result<usize, PanError>)
    ensures
        ka is Ok <==> anchor_of(detections@) is Some,
        ka matches Ok(i) ==> anchor_of(detections@) == Some(i as int) && i < detections@.len()
            && links::corners_of(detections@[i as int]@, LEFT_MARKER_ID) is Some,
        ka matches Err(e) ==> e == PanError::AnchorMarkerNotFound,
{
    let areas: Vec<Option<Double>> = marker_areas(detections, LEFT_MARKER_ID);
    match pick_best(&areas) {
        Some(i) => Ok(i),
        None => Err(PanError::AnchorMarkerNotFound),
    }
}

/// Areas of Marker B weighted by how sharp its keyframes are: a close but
/// motion-blurred B must not beat a smaller sharp one.
pub open spec fn closure_scores(
    detections: Seq<Vec<DetectedMarker>>,
    sharpness: Seq<Double>,
) -> Seq<Option<Double>> {
    let areas = areas_of(detections, RIGHT_MARKER_ID);
    Seq::new(
        areas.len(),
        |i: int|
            match areas[i] {
                Some(a) => Some(
                    a * double::larger(sharpness[i], Double { bits: LEAST_SHARPNESS }),
                ),
                None => None,
            },
    )
}

/// The keyframe that closes the loop.
pub open spec fn closer_of(
    detections: Seq<Vec<DetectedMarker>>,
    sharpness: Seq<Double>,
) -> Option<int> {
    best_scored(closure_scores(detections, sharpness), detections.len() as int)
}

/// Choose the keyframe that closes the loop, by detection quality.
pub fn closure_keyframe(
    detections: &Vec<Vec<DetectedMarker>>,
    sharpness: &Vec<Double>,
) -> (kb: Option<usize>)
    requires
        sharpness@.len() == detections@.len(),
    ensures
        kb is Some <==> closer_of(detections@, sharpness@) is Some,
        kb matches Some(i) ==> closer_of(detections@, sharpness@) == Some(i as int) && i
            < detections@.len() && links::corners_of(detections@[i as int]@, RIGHT_MARKER_ID)
            is Some,
{
    let areas: Vec<Option<Double>> = marker_areas(detections, RIGHT_MARKER_ID);
    let mut scores: Vec<Option<Double>> = Vec::new();
    let mut i: usize = 0;
    while i < areas.len()
        invariant
            areas@ == areas_of(detections@, RIGHT_MARKER_ID),
            sharpness@.len() == detections@.len(),
            i <= areas@.len(),
            scores@.len() == i,
            forall|k: int|
                0 <= k < i ==> #[trigger] scores@[k] == closure_scores(
                    detections@,
                    sharpness@,
                )[k],
        decreases areas@.len() - i,
    {
        match areas[i] {
            Some(a) => {
                scores.push(Some(a * sharpness[i].max(&Double::from_bits(LEAST_SHARPNESS))));
            },
            None => {
                scores.push(None);
            },
        }
        i = i + 1;
    }
    assert(scores@ =~= closure_scores(detections@, sharpness@));
    pick_best(&scores)
}

/// A wall position that a back-projection may have.
pub open spec fn is_near(p: (Double, Double)) -> bool {
    let far = Double { bits: MAX_BACK_PROJECTION_MM };
    p.0.size().less(far) && p.1.size().less(far)
}

/// A corner on the wall, through the inverse `inv` of a wall-to-px homography.
pub open spec fn corner_on_wall(inv: Mat3, c: Point) -> Option<(Double, Double)> {
    homography::image_of(inv, c[0], c[1])
}

/// A quad on the wall, through the inverse of a wall-to-px homography; none when
/// a corner lands on the plane at infinity.
pub open spec fn quad_on_wall(inv: Mat3, corners: Quad) -> Option<Quad> {
    match (
        corner_on_wall(inv, corners[0]),
        corner_on_wall(inv, corners[1]),
        corner_on_wall(inv, corners[2]),
        corner_on_wall(inv, corners[3]),
    ) {
        (Some(a), Some(b), Some(c), Some(d)) => Some(
            [[a.0, a.1], [b.0, b.1], [c.0, c.1], [d.0, d.1]],
        ),
        _ => None,
    }
}

/// A quad on the wall, through a wall-to-px homography; none when it cannot be
/// inverted or a corner lands on the plane at infinity.
pub open spec fn seen_on_wall(w: Mat3, corners: Quad) -> Option<Quad> {
    match linalg::inverse_of(w) {
        None => None,
        Some(inv) => quad_on_wall(inv, corners),
    }
}

/// Look at a quad on the wall, through a wall-to-px homography.
pub fn see_on_wall(w: &Mat3, corners: &Quad) -> (q: Option<Quad>)
    ensures
        q == seen_on_wall(*w, *corners),
{
    let h: Homography = match mat3_inv(w) {
        None => {
            return None;
        },
        Some(inv) => Homography(inv),
    };
    let a: (Double, Double) = match h.apply(corners[0][0], corners[0][1]) {
        None => {
            return None;
        },
        Some(p) => p,
    };
    let b: (Double, Double) = match h.apply(corners[1][0], corners[1][1]) {
        None => {
            return None;
        },
        Some(p) => p,
    };
    let c: (Double, Double) = match h.apply(corners[2][0], corners[2][1]) {
        None => {
            return None;
        },
        Some(p) => p,
    };
    let d: (Double, Double) = match h.apply(corners[3][0], corners[3][1]) {
        None => {
            return None;
        },
        Some(p) => p,
    };
    Some([[a.0, a.1], [b.0, b.1], [c.0, c.1], [d.0, d.1]])
}

/// All corners of a back-projected quad are plausible.
pub open spec fn is_plausible(q: Quad) -> bool {
    forall|k: int| 0 <= k < 4 ==> is_near(((#[trigger] q[k])[0], q[k][1]))
}

fn plausible(q: &Quad) -> (ok: bool)
    ensures
        ok == is_plausible(*q),
{
    let far: Double = Double::from_bits(MAX_BACK_PROJECTION_MM);
    let mut k: usize = 0;
    while k < 4
        invariant
            k <= 4,
            far == (Double { bits: MAX_BACK_PROJECTION_MM }),
            forall|i: int| 0 <= i < k ==> is_near(((#[trigger] q[i])[0], q[i][1])),
        decreases 4 - k,
    {
        if !(q[k][0].abs().lt(&far) && q[k][1].abs().lt(&far)) {
            assert(!is_near((q[k as int][0], q[k as int][1])));
            return false;
        }
        k = k + 1;
    }
    true
}

/// The back-projection of a quad through a wall-to-px homography; none when the
/// homography cannot be inverted, or a corner lands at infinity or implausibly
/// far.
pub open spec fn back_projection(w: Mat3, corners: Quad) -> Option<Quad> {
    match seen_on_wall(w, corners) {
        Some(q) if is_plausible(q) => Some(q),
        _ => None,
    }
}

/// Back-project a quad onto the wall.
pub fn back_project(w: &Mat3, corners: &Quad) -> (q: Option<Quad>)
    ensures
        q == back_projection(*w, *corners),
{
    match see_on_wall(w, corners) {
        None => None,
        Some(q) => if plausible(&q) {
            Some(q)
        } else {
            None
        },
    }
}

/// World-plane (mm) corner coordinates of the anchor marker: printed top-left at
/// the origin, clockwise.
pub open spec fn square_of(side: Double) -> Quad {
    let zero = Double { bits: 0 };
    [[zero, zero], [side, zero], [side, side], [zero, side]]
}

/// World-plane (mm) corner coordinates of the anchor marker.
pub fn anchor_corners_mm(side_mm: Double) -> (q: Quad)
    ensures
        q == square_of(side_mm),
{
    let zero: Double = Double::from_bits(0);
    [[zero, zero], [side_mm, zero], [side_mm, side_mm], [zero, side_mm]]
}

/// Centroid coordinate of a quad.
pub open spec fn centroid(q: Quad, axis: int) -> Double {
    let four = Double { bits: FOUR };
    Double { bits: 0 } + q[0][axis].per(four) + q[1][axis].per(four) + q[2][axis].per(four)
        + q[3][axis].per(four)
}

fn centroid_of(q: &Quad, axis: usize) -> (c: Double)
    requires
        axis < 2,
    ensures
        c == centroid(*q, axis as int),
{
    let four: Double = Double::from_bits(FOUR);
    Double::from_bits(0) + q[0][axis] / four + q[1][axis] / four + q[2][axis] / four + q[3][axis]
        / four
}

/// Offset of a corner from the centroid.
pub open spec fn offset(q: Quad, k: int, axis: int) -> Double {
    q[k][axis] - centroid(q, axis)
}

/// Sum over the first `n` corners of the dot products of two quads' offsets.
pub open spec fn dot_sum(a: Quad, b: Quad, n: int) -> Double
    decreases n,
{
    if n <= 0 {
        Double { bits: 0 }
    } else {
        dot_sum(a, b, n - 1) + (offset(a, n - 1, 0) * offset(b, n - 1, 0) + offset(a, n - 1, 1)
            * offset(b, n - 1, 1))
    }
}

/// Sum over the first `n` corners of the cross products of two quads' offsets.
pub open spec fn cross_sum(a: Quad, b: Quad, n: int) -> Double
    decreases n,
{
    if n <= 0 {
        Double { bits: 0 }
    } else {
        cross_sum(a, b, n - 1) + (offset(a, n - 1, 0) * offset(b, n - 1, 1) - offset(a, n - 1, 1)
            * offset(b, n - 1, 0))
    }
}

fn correlate(a: &Quad, b: &Quad) -> (s: (Double, Double))
    ensures
        s.0 == dot_sum(*a, *b, 4),
        s.1 == cross_sum(*a, *b, 4),
{
    let ca: Point = [centroid_of(a, 0), centroid_of(a, 1)];
    let cb: Point = [centroid_of(b, 0), centroid_of(b, 1)];
    let mut dot: Double = Double::from_bits(0);
    let mut cross: Double = Double::from_bits(0);
    let mut k: usize = 0;
    while k < 4
        invariant
            k <= 4,
            ca[0] == centroid(*a, 0),
            ca[1] == centroid(*a, 1),
            cb[0] == centroid(*b, 0),
            cb[1] == centroid(*b, 1),
            dot == dot_sum(*a, *b, k as int),
            cross == cross_sum(*a, *b, k as int),
        decreases 4 - k,
    {
        let ax: Double = a[k][0] - ca[0];
        let ay: Double = a[k][1] - ca[1];
        let bx: Double = b[k][0] - cb[0];
        let by: Double = b[k][1] - cb[1];
        dot = dot + (ax * bx + ay * by);
        cross = cross + (ax * by - ay * bx);
        k = k + 1;
    }
    (dot, cross)
}

/// `turn` answers every question, always in the same way; so does `power`.
pub open spec fn are_curves<
    T: Fn(Double, Double) -> (Double, Double),
    P: Fn(Double, Double) -> Double,
>(turn: &T, power: &P) -> bool {
    &&& forall|y: Double, x: Double| call_requires(turn, (y, x))
    &&& forall|y: Double, x: Double, u: (Double, Double), v: (Double, Double)|
        #[trigger] call_ensures(turn, (y, x), u) && #[trigger] call_ensures(turn, (y, x), v) ==> u
            == v
    &&& forall|b: Double, e: Double| call_requires(power, (b, e))
    &&& forall|b: Double, e: Double, u: Double, v: Double|
        #[trigger] call_ensures(power, (b, e), u) && #[trigger] call_ensures(power, (b, e), v)
            ==> u == v
}

/// Sine and cosine of the angle of the direction (`x`, `y`).
pub open spec fn turn_of<T: Fn(Double, Double) -> (Double, Double)>(
    turn: &T,
    y: Double,
    x: Double,
) -> (Double, Double) {
    choose|v: (Double, Double)| #[trigger] call_ensures(turn, (y, x), v)
}

/// A power.
pub open spec fn power_of<P: Fn(Double, Double) -> Double>(
    power: &P,
    b: Double,
    e: Double,
) -> Double {
    choose|v: Double| #[trigger] call_ensures(power, (b, e), v)
}

/// Corner `k` of the square `local`, turned and moved onto `target` in the
/// least-squares sense.
pub open spec fn posed_corner<T: Fn(Double, Double) -> (Double, Double)>(
    turn: &T,
    local: Quad,
    target: Quad,
    k: int,
) -> Point {
    let (s, c) = turn_of(turn, cross_sum(local, target, 4), dot_sum(local, target, 4));
    [
        centroid(target, 0) + c * offset(local, k, 0) - s * offset(local, k, 1),
        centroid(target, 1) + s * offset(local, k, 0) + c * offset(local, k, 1),
    ]
}

/// The square `local`, turned and moved onto `target`.
pub open spec fn posed<T: Fn(Double, Double) -> (Double, Double)>(
    turn: &T,
    local: Quad,
    target: Quad,
) -> Quad {
    [
        posed_corner(turn, local, target, 0),
        posed_corner(turn, local, target, 1),
        posed_corner(turn, local, target, 2),
        posed_corner(turn, local, target, 3),
    ]
}

/// 2D Kabsch with fixed scale: rotation + translation mapping `local` onto
/// `target` in the least-squares sense. `turn` gives sine and cosine of the
/// angle of a direction (y, x).
pub fn fit_rigid_square<T: Fn(Double, Double) -> (Double, Double)>(
    turn: &T,
    local: &Quad,
    target: &Quad,
) -> (out: Quad)
    requires
        forall|y: Double, x: Double| call_requires(turn, (y, x)),
        forall|y: Double, x: Double, u: (Double, Double), v: (Double, Double)|
            #[trigger] call_ensures(turn, (y, x), u) && #[trigger] call_ensures(turn, (y, x), v)
                ==> u == v,
    ensures
        out == posed(turn, *local, *target),
{
    let (dot, cross) = correlate(local, target);
    let sc: (Double, Double) = turn(cross, dot);
    proof {
        assert(call_ensures(turn, (cross, dot), sc));
        assert(call_ensures(turn, (cross, dot), turn_of(turn, cross, dot)));
    }
    let s: Double = sc.0;
    let c: Double = sc.1;
    let lx: Double = centroid_of(local, 0);
    let ly: Double = centroid_of(local, 1);
    let tx: Double = centroid_of(target, 0);
    let ty: Double = centroid_of(target, 1);
    [
        [
            tx + c * (local[0][0] - lx) - s * (local[0][1] - ly),
            ty + s * (local[0][0] - lx) + c * (local[0][1] - ly),
        ],
        [
            tx + c * (local[1][0] - lx) - s * (local[1][1] - ly),
            ty + s * (local[1][0] - lx) + c * (local[1][1] - ly),
        ],
        [
            tx + c * (local[2][0] - lx) - s * (local[2][1] - ly),
            ty + s * (local[2][0] - lx) + c * (local[2][1] - ly),
        ],
        [
            tx + c * (local[3][0] - lx) - s * (local[3][1] - ly),
            ty + s * (local[3][0] - lx) + c * (local[3][1] - ly),
        ],
    ]
}

/// Scale of the similarity that maps `src` onto `dst` in the least-squares
/// sense.
pub open spec fn scale_between(src: Quad, dst: Quad) -> Double {
    let (a, b) = (dot_sum(src, dst, 4), cross_sum(src, dst, 4));
    (a * a + b * b).root().per(
        double::larger(dot_sum(src, src, 4), Double { bits: LEAST_SCATTER }),
    )
}

/// Scale of the similarity (Umeyama, no reflection) that maps `src` onto `dst`
/// in the least-squares sense.
pub fn similarity_scale(src: &Quad, dst: &Quad) -> (scale: Double)
    ensures
        scale == scale_between(*src, *dst),
{
    let (a, b) = correlate(src, dst);
    let (n2, _) = correlate(src, src);
    (a * a + b * b).sqrt() / n2.max(&Double::from_bits(LEAST_SCATTER))
}

/// Translation of the similarity with this scale, and this sine and cosine of its
/// angle, that maps the centroid of `src` onto that of `dst`.
pub open spec fn shift_between(src: Quad, dst: Quad, scale: Double, sc: (Double, Double)) -> Point {
    [
        centroid(dst, 0) - scale * (sc.1 * centroid(src, 0) - sc.0 * centroid(src, 1)),
        centroid(dst, 1) - scale * (sc.0 * centroid(src, 0) + sc.1 * centroid(src, 1)),
    ]
}

/// 2D similarity fit (Umeyama, no reflection): scale, rotation, translation
/// mapping `src` onto `dst` in the least-squares sense. `atan2` gives the angle of
/// a direction (y, x), `sin_cos` sine and cosine of an angle.
pub fn fit_similarity<
    Atan2: Fn(Double, Double) -> Double,
    SinCos: Fn(Double) -> (Double, Double),
>(atan2: &Atan2, sin_cos: &SinCos, src: &Quad, dst: &Quad) -> (fit: (Double, Double, Point))
    requires
        forall|y: Double, x: Double| call_requires(atan2, (y, x)),
        forall|a: Double| call_requires(sin_cos, (a,)),
    ensures
        fit.0 == scale_between(*src, *dst),
        call_ensures(atan2, (cross_sum(*src, *dst, 4), dot_sum(*src, *dst, 4)), fit.1),
        exists|sc: (Double, Double)| #[trigger]
            call_ensures(sin_cos, (fit.1,), sc) && fit.2 == shift_between(
                *src,
                *dst,
                fit.0,
                sc,
            ),
{
    let (a, b) = correlate(src, dst);
    let scale: Double = similarity_scale(src, dst);
    let theta: Double = atan2(b, a);
    let sc: (Double, Double) = sin_cos(theta);
    let (s, c): (Double, Double) = sc;
    let sx: Double = centroid_of(src, 0);
    let sy: Double = centroid_of(src, 1);
    let t: Point = [
        centroid_of(dst, 0) - scale * (c * sx - s * sy),
        centroid_of(dst, 1) - scale * (s * sx + c * sy),
    ];
    proof {
        assert(call_ensures(sin_cos, (theta,), sc));
        assert(t =~= shift_between(*src, *dst, scale, sc));
    }
    (scale, theta, t)
}

/// Squared distance of corner `k` of two quads.
pub open spec fn corner_gap2(a: Quad, b: Quad, k: int) -> Double {
    (a[k][0] - b[k][0]) * (a[k][0] - b[k][0]) + (a[k][1] - b[k][1]) * (a[k][1] - b[k][1])
}

/// RMS distance of the corners of two quads.
pub open spec fn quad_rms(a: Quad, b: Quad) -> Double {
    (Double { bits: 0 } + corner_gap2(a, b, 0) + corner_gap2(a, b, 1) + corner_gap2(a, b, 2)
        + corner_gap2(a, b, 3)).per(Double { bits: FOUR }).root()
}

fn gap_squared(a: &Quad, b: &Quad, k: usize) -> (d: Double)
    requires
        k < 4,
    ensures
        d == corner_gap2(*a, *b, k as int),
{
    let dx: Double = a[k][0] - b[k][0];
    let dy: Double = a[k][1] - b[k][1];
    dx * dx + dy * dy
}

/// RMS distance of the corners of two quads.
pub fn rms4(a: &Quad, b: &Quad) -> (rms: Double)
    ensures
        rms == quad_rms(*a, *b),
{
    ((Double::from_bits(0) + gap_squared(a, b, 0) + gap_squared(a, b, 1) + gap_squared(a, b, 2)
        + gap_squared(a, b, 3)) / Double::from_bits(FOUR)).sqrt()
}

/// Measured drift at Marker B: RMS distance from a true-size square, and the
/// scale that corrects it.
#[derive(Clone, Copy, Debug)]
pub struct Drift {
    pub discrepancy_mm: Double,
    pub scale: Double,
}

/// Drift of a back-projected quad: how far it is from being a true-size square,
/// posed to fit it.
pub open spec fn drift_of<T: Fn(Double, Double) -> (Double, Double)>(
    turn: &T,
    side: Double,
    q: Quad,
) -> Drift {
    let s = posed(turn, square_of(side), q);
    Drift { discrepancy_mm: quad_rms(q, s), scale: scale_between(q, s) }
}

/// Drift that can be chain drift. Anything more must not be redistributed: a
/// pan that only rotates in place would be rewritten into confident garbage.
pub open spec fn is_credible(d: Drift) -> bool {
    &&& !(Double { bits: MAX_CLOSURE_DISCREPANCY_MM }).less(d.discrepancy_mm)
    &&& !(Double { bits: MAX_CLOSURE_SCALE_DEV }).less((d.scale - Double { bits: ONE }).size())
}

/// Measure the drift of a back-projected quad.
pub fn measure_drift<T: Fn(Double, Double) -> (Double, Double)>(
    turn: &T,
    side_mm: Double,
    q: &Quad,
) -> (d: Drift)
    requires
        forall|y: Double, x: Double| call_requires(turn, (y, x)),
        forall|y: Double, x: Double, u: (Double, Double), v: (Double, Double)|
            #[trigger] call_ensures(turn, (y, x), u) && #[trigger] call_ensures(turn, (y, x), v)
                ==> u == v,
    ensures
        d == drift_of(turn, side_mm, *q),
{
    let s: Quad = fit_rigid_square(turn, &anchor_corners_mm(side_mm), q);
    Drift { discrepancy_mm: rms4(q, &s), scale: similarity_scale(q, &s) }
}

/// Can this be chain drift?
pub fn credible(d: &Drift) -> (ok: bool)
    ensures
        ok == is_credible(*d),
{
    !Double::from_bits(MAX_CLOSURE_DISCREPANCY_MM).lt(&d.discrepancy_mm) && !Double::from_bits(
        MAX_CLOSURE_SCALE_DEV,
    ).lt(&(d.scale - Double::from_bits(ONE)).abs())
}

/// Fraction of the way from the anchor to Marker B, along the chain.
pub open spec fn fraction(s: Seq<Double>, span: Double, i: int) -> Double {
    if span.size().less(Double { bits: LEAST_SPAN }) {
        Double { bits: ONE }
    } else {
        clamped(s[i].per(span), Double { bits: 0 }, Double { bits: ONE })
    }
}

/// A value kept between two bounds.
pub open spec fn clamped(v: Double, lo: Double, hi: Double) -> Double {
    if v.less(lo) {
        lo
    } else if hi.less(v) {
        hi
    } else {
        v
    }
}

/// A value kept between two bounds.
pub fn clamp(v: Double, lo: Double, hi: Double) -> (r: Double)
    ensures
        r == clamped(v, lo, hi),
{
    if v.lt(&lo) {
        lo
    } else if hi.lt(&v) {
        hi
    } else {
        v
    }
}

fn fraction_at(s: &Vec<Double>, span: &Double, i: usize) -> (t: Double)
    requires
        i < s@.len(),
    ensures
        t == fraction(s@, *span, i as int),
{
    if span.abs().lt(&Double::from_bits(LEAST_SPAN)) {
        Double::from_bits(ONE)
    } else {
        clamp(s[i] / *span, Double::from_bits(0), Double::from_bits(ONE))
    }
}

/// Local scale between two neighbouring keyframes: the chain's scale error
/// accumulated link by link, so the correction at chain fraction t is s^t.
pub open spec fn scale_between_keyframes<P: Fn(Double, Double) -> Double>(
    power: &P,
    scale: Double,
    s: Seq<Double>,
    span: Double,
    near: int,
    i: int,
) -> Double {
    power_of(
        power,
        scale,
        (fraction(s, span, near) + fraction(s, span, i)).per(Double { bits: TWO }),
    )
}

/// Corrected wall position of keyframe `i`: positions move by the integral of
/// the local scale along the chain.
pub open spec fn corrected_centre<P: Fn(Double, Double) -> Double>(
    power: &P,
    scale: Double,
    s: Seq<Double>,
    span: Double,
    centres: Seq<Point>,
    ka: int,
    i: int,
) -> Point
    decreases
            if i >= ka {
                i - ka
            } else {
                ka - i
            },
{
    if i == ka {
        centres[ka]
    } else {
        let near = if i > ka {
            i - 1
        } else {
            i + 1
        };
        let from = if i > ka {
            corrected_centre(power, scale, s, span, centres, ka, i - 1)
        } else {
            corrected_centre(power, scale, s, span, centres, ka, i + 1)
        };
        let m = scale_between_keyframes(power, scale, s, span, near, i);
        [
            from[0] + m * (centres[i][0] - centres[near][0]),
            from[1] + m * (centres[i][1] - centres[near][1]),
        ]
    }
}

fn moved<P: Fn(Double, Double) -> Double>(
    power: &P,
    scale: Double,
    s: &Vec<Double>,
    span: &Double,
    centres: &Vec<Point>,
    from: &Point,
    near: usize,
    i: usize,
) -> (p: Point)
    requires
        forall|b: Double, e: Double| call_requires(power, (b, e)),
        forall|b: Double, e: Double, u: Double, v: Double|
            #[trigger] call_ensures(power, (b, e), u) && #[trigger] call_ensures(power, (b, e), v)
                ==> u == v,
        s@.len() == centres@.len(),
        near < s@.len(),
        i < s@.len(),
    ensures
        ({
            let m = scale_between_keyframes(power, scale, s@, *span, near as int, i as int);
            p == [
                from[0] + m * (centres@[i as int][0] - centres@[near as int][0]),
                from[1] + m * (centres@[i as int][1] - centres@[near as int][1]),
            ]
        }),
{
    let e: Double = (fraction_at(s, span, near) + fraction_at(s, span, i)) / Double::from_bits(TWO);
    let m: Double = power(scale, e);
    proof {
        assert(call_ensures(power, (scale, e), m));
        assert(call_ensures(power, (scale, e), power_of(power, scale, e)));
    }
    [
        from[0] + m * (centres[i][0] - centres[near][0]),
        from[1] + m * (centres[i][1] - centres[near][1]),
    ]
}

/// Corrected wall positions of all keyframes.
pub fn correct_centres<P: Fn(Double, Double) -> Double>(
    power: &P,
    scale: Double,
    s: &Vec<Double>,
    span: &Double,
    centres: &Vec<Point>,
    ka: usize,
) -> (out: Vec<Point>)
    requires
        forall|b: Double, e: Double| call_requires(power, (b, e)),
        forall|b: Double, e: Double, u: Double, v: Double|
            #[trigger] call_ensures(power, (b, e), u) && #[trigger] call_ensures(power, (b, e), v)
                ==> u == v,
        s@.len() == centres@.len(),
        ka < centres@.len(),
    ensures
        out@ == Seq::new(
            centres@.len(),
            |i: int| corrected_centre(power, scale, s@, *span, centres@, ka as int, i),
        ),
{
    let n: usize = centres.len();
    let mut out: Vec<Point> = vec![centres[ka]; n];
    let mut i: usize = ka + 1;
    while i < n
        invariant
            forall|b: Double, e: Double| call_requires(power, (b, e)),
            forall|b: Double, e: Double, u: Double, v: Double|
                #[trigger] call_ensures(power, (b, e), u) && #[trigger] call_ensures(
                    power,
                    (b, e),
                    v,
                ) ==> u == v,
            n == centres@.len(),
            s@.len() == n,
            out@.len() == n,
            ka < i <= n,
            forall|k: int|
                ka <= k < i ==> #[trigger] out@[k] == corrected_centre(
                    power,
                    scale,
                    s@,
                    *span,
                    centres@,
                    ka as int,
                    k,
                ),
        decreases n - i,
    {
        let p: Point = moved(power, scale, s, span, centres, &out[i - 1], i - 1, i);
        out.set(i, p);
        i = i + 1;
    }
    let mut j: usize = ka;
    while j > 0
        invariant
            forall|b: Double, e: Double| call_requires(power, (b, e)),
            forall|b: Double, e: Double, u: Double, v: Double|
                #[trigger] call_ensures(power, (b, e), u) && #[trigger] call_ensures(
                    power,
                    (b, e),
                    v,
                ) ==> u == v,
            n == centres@.len(),
            s@.len() == n,
            out@.len() == n,
            j <= ka < n,
            forall|k: int|
                j <= k < n ==> #[trigger] out@[k] == corrected_centre(
                    power,
                    scale,
                    s@,
                    *span,
                    centres@,
                    ka as int,
                    k,
                ),
        decreases j,
    {
        j = j - 1;
        let p: Point = moved(power, scale, s, span, centres, &out[j + 1], j + 1, j);
        out.set(j, p);
    }
    assert(out@ =~= Seq::new(
        centres@.len(),
        |i: int| corrected_centre(power, scale, s@, *span, centres@, ka as int, i),
    ));
    out
}

/// Wall-side correction of a keyframe: local scale `st` about its chain position
/// `from`, re-centred on its corrected position `to`.
pub open spec fn wall_correction(st: Double, from: Point, to: Point) -> Mat3 {
    let zero = Double { bits: 0 };
    [
        st,
        zero,
        to[0] - st * from[0],
        zero,
        st,
        to[1] - st * from[1],
        zero,
        zero,
        Double { bits: ONE },
    ]
}

/// The correction of keyframe `i`.
pub open spec fn correction_at<P: Fn(Double, Double) -> Double>(
    power: &P,
    scale: Double,
    s: Seq<Double>,
    span: Double,
    centres: Seq<Point>,
    ka: int,
    i: int,
) -> Mat3 {
    wall_correction(
        power_of(power, scale, fraction(s, span, i)),
        centres[i],
        corrected_centre(power, scale, s, span, centres, ka, i),
    )
}

/// The homography of keyframe `i` after the drift is redistributed.
pub open spec fn redistributed<P: Fn(Double, Double) -> Double>(
    power: &P,
    scale: Double,
    s: Seq<Double>,
    span: Double,
    centres: Seq<Point>,
    ka: int,
    w: Mat3,
    i: int,
) -> Option<Mat3> {
    match linalg::inverse_of(correction_at(power, scale, s, span, centres, ka, i)) {
        Some(inv) => Some(linalg::mat_product(w, inv)),
        None => None,
    }
}

/// Redistribute the drift as a progressive local-scale field; `None` where a
/// keyframe's correction cannot be inverted.
pub fn redistribute<P: Fn(Double, Double) -> Double>(
    power: &P,
    scale: Double,
    s: &Vec<Double>,
    span: &Double,
    centres: &Vec<Point>,
    ka: usize,
    w_chain: &Vec<Mat3>,
) -> (out: Option<Vec<Mat3>>)
    requires
        forall|b: Double, e: Double| call_requires(power, (b, e)),
        forall|b: Double, e: Double, u: Double, v: Double|
            #[trigger] call_ensures(power, (b, e), u) && #[trigger] call_ensures(power, (b, e), v)
                ==> u == v,
        s@.len() == centres@.len(),
        w_chain@.len() == centres@.len(),
        ka < centres@.len(),
    ensures
        out is None <==> exists|i: int|
            0 <= i < w_chain@.len() && redistributed(
                power,
                scale,
                s@,
                *span,
                centres@,
                ka as int,
                #[trigger] w_chain@[i],
                i,
            ) is None,
        out matches Some(w) ==> w@.len() == w_chain@.len() && forall|i: int|
            0 <= i < w_chain@.len() ==> redistributed(
                power,
                scale,
                s@,
                *span,
                centres@,
                ka as int,
                w_chain@[i],
                i,
            ) == Some(#[trigger] w@[i]),
{
    let corrected: Vec<Point> = correct_centres(power, scale, s, span, centres, ka);
    let zero: Double = Double::from_bits(0);
    let mut out: Vec<Mat3> = Vec::new();
    let mut i: usize = 0;
    while i < w_chain.len()
        invariant
            forall|b: Double, e: Double| call_requires(power, (b, e)),
            forall|b: Double, e: Double, u: Double, v: Double|
                #[trigger] call_ensures(power, (b, e), u) && #[trigger] call_ensures(
                    power,
                    (b, e),
                    v,
                ) ==> u == v,
            s@.len() == centres@.len(),
            w_chain@.len() == centres@.len(),
            corrected@ == Seq::new(
                centres@.len(),
                |i: int| corrected_centre(power, scale, s@, *span, centres@, ka as int, i),
            ),
            zero == (Double { bits: 0 }),
            i <= w_chain@.len(),
            out@.len() == i,
            forall|k: int|
                0 <= k < i ==> redistributed(
                    power,
                    scale,
                    s@,
                    *span,
                    centres@,
                    ka as int,
                    w_chain@[k],
                    k,
                ) == Some(#[trigger] out@[k]),
        decreases w_chain@.len() - i,
    {
        let t: Double = fraction_at(s, span, i);
        let st: Double = power(scale, t);
        proof {
            assert(call_ensures(power, (scale, t), st));
            assert(call_ensures(power, (scale, t), power_of(power, scale, t)));
        }
        let f: Mat3 = [
            st,
            zero,
            corrected[i][0] - st * centres[i][0],
            zero,
            st,
            corrected[i][1] - st * centres[i][1],
            zero,
            zero,
            Double::from_bits(ONE),
        ];
        assert(f == correction_at(power, scale, s@, *span, centres@, ka as int, i as int));
        match mat3_inv(&f) {
            None => {
                assert(redistributed(
                    power,
                    scale,
                    s@,
                    *span,
                    centres@,
                    ka as int,
                    w_chain@[i as int],
                    i as int,
                ) is None);
                return None;
            },
            Some(inv) => {
                out.push(mat3_mul(&w_chain[i], &inv));
            },
        }
        i = i + 1;
    }
    proof {
        assert forall|k: int| 0 <= k < w_chain@.len() implies redistributed(
            power,
            scale,
            s@,
            *span,
            centres@,
            ka as int,
            #[trigger] w_chain@[k],
            k,
        ) is Some by {
            assert(out@[k] == out@[k]);
        }
    }
    Some(out)
}

/// The anchor is corrected about its own position.
pub proof fn law_anchor_position_is_kept<P: Fn(Double, Double) -> Double>(
    power: &P,
    scale: Double,
    s: Seq<Double>,
    span: Double,
    centres: Seq<Point>,
    ka: int,
)
    ensures
        corrected_centre(power, scale, s, span, centres, ka, ka) == centres[ka],
{
}

/// Local wall mm per px of a wall->px homography around a wall point, from
/// finite differences.
pub open spec fn mm_per_px_at(w: Mat3, p: Point) -> Option<Double> {
    let one = Double { bits: ONE };
    match (
        homography::image_of(w, p[0], p[1]),
        homography::image_of(w, p[0] + one, p[1]),
        homography::image_of(w, p[0], p[1] + one),
    ) {
        (Some(o), Some(x), Some(y)) => {
            let du = chain::gap([x.0, x.1], [o.0, o.1]);
            let dv = chain::gap([y.0, y.1], [o.0, o.1]);
            let k = (du + dv).per(Double { bits: TWO });
            if k.less(Double { bits: LEAST_PX_PER_MM }) {
                None
            } else {
                Some(one.per(k))
            }
        },
        _ => None,
    }
}

/// Local wall mm per px of a wall->px homography around a wall point.
pub fn local_mm_per_px(w: &Mat3, p: &Point) -> (scale: Option<Double>)
    ensures
        scale == mm_per_px_at(*w, *p),
{
    let one: Double = Double::from_bits(ONE);
    let h: Homography = Homography(*w);
    let o: (Double, Double) = match h.apply(p[0], p[1]) {
        None => {
            return None;
        },
        Some(o) => o,
    };
    let x: (Double, Double) = match h.apply(p[0] + one, p[1]) {
        None => {
            return None;
        },
        Some(x) => x,
    };
    let y: (Double, Double) = match h.apply(p[0], p[1] + one) {
        None => {
            return None;
        },
        Some(y) => y,
    };
    let du: Double = chain::distance(&[x.0, x.1], &[o.0, o.1]);
    let dv: Double = chain::distance(&[y.0, y.1], &[o.0, o.1]);
    let k: Double = (du + dv) / Double::from_bits(TWO);
    if k.lt(&Double::from_bits(LEAST_PX_PER_MM)) {
        return None;
    }
    Some(one / k)
}

} // verus!
