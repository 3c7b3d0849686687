//! Sub-pixel corner refinement: for each edge of a quad, the black/white
//! transition is located along several profiles perpendicular to the edge, a
//! line is fitted through those edge points, and adjacent lines are
//! intersected.
use vstd::prelude::*;

use crate::double;
use crate::double::Double;
use crate::sample::Luma;

verus! {

/// A point in image px.
pub type Point = [Double; 2];

/// Homogeneous line coefficients [nx, ny, d] (nx*x + ny*y + d = 0).
pub type Line = [Double; 3];

/// Profiles across an edge.
pub const PROFILES: usize = 12;

/// Samples of a profile.
pub const SAMPLES: usize = 11;

/// Edge points that a line needs.
pub const MIN_EDGE_POINTS: usize = 6;

/// Shortest edge (px) that is refined: the bits of 14.0.
pub const MIN_EDGE: u64 = 0x402c_0000_0000_0000;

/// Where the middle 60% of an edge starts (the corners themselves are rounded
/// by blur): the bits of 0.2.
pub const FIRST_PROFILE: u64 = 0x3fc9_9999_9999_999a;

/// Fraction of the edge that the profiles spread over: the bits of 0.6.
pub const PROFILE_SPREAD: u64 = 0x3fe3_3333_3333_3333;

/// The bits of 12.0, the number of profiles.
pub const PROFILE_COUNT: u64 = 0x4028_0000_0000_0000;

/// Sample spacing (px): the bits of 0.5.
pub const SPACING: u64 = 0x3fe0_0000_0000_0000;

/// Start of a profile, px from the nominal edge: the bits of -2.5.
pub const PROFILE_START: u64 = 0xc004_0000_0000_0000;

/// Farthest a refined corner may be from the nominal one (px): the bits of 2.5.
pub const MAX_MOVE: u64 = 0x4004_0000_0000_0000;

/// Least squared contrast of a profile: the bits of 1e-6.
pub const MIN_EDGE_WEIGHT: u64 = 0x3eb0_c6f7_a0b5_ed8d;

/// How small counts as zero in a line fit: the bits of 1e-12.
pub const TINY: u64 = 0x3d71_9799_812d_ea11;

/// How small a determinant makes two lines parallel: the bits of 1e-9.
pub const PARALLEL: u64 = 0x3e11_2e0b_e826_d695;

/// The bits of 1.0.
pub const ONE: u64 = 0x3ff0_0000_0000_0000;

/// The bits of 2.0.
pub const TWO: u64 = 0x4000_0000_0000_0000;

/// The bits of 4.0.
pub const FOUR: u64 = 0x4010_0000_0000_0000;

/// Length of the edge from `a` to `b`.
pub open spec fn edge_length(a: Point, b: Point) -> Double {
    ((b[0] - a[0]) * (b[0] - a[0]) + (b[1] - a[1]) * (b[1] - a[1])).root()
}

/// Unit normal of the edge from `a` to `b`.
pub open spec fn edge_normal(a: Point, b: Point) -> Point {
    [(b[1] - a[1]).opposite().per(edge_length(a, b)), (b[0] - a[0]).per(edge_length(a, b))]
}

/// Whole number plus a half.
pub open spec fn and_a_half(k: int) -> Double {
    double::whole(k) + Double { bits: SPACING }
}

/// Where profile `k` crosses the edge.
pub open spec fn profile_centre(a: Point, b: Point, k: int) -> Point {
    let t = Double { bits: FIRST_PROFILE } + (Double { bits: PROFILE_SPREAD } * and_a_half(k)).per(
        Double { bits: PROFILE_COUNT },
    );
    [a[0] + t * (b[0] - a[0]), a[1] + t * (b[1] - a[1])]
}

/// A point off the edge along its normal.
pub open spec fn off_edge(p: Point, normal: Point, d: Double) -> Point {
    [p[0] + d * normal[0], p[1] + d * normal[1]]
}

/// Sample `s` of profile `k`.
pub open spec fn sample_point(a: Point, b: Point, k: int, s: int) -> Point {
    off_edge(
        profile_centre(a, b, k),
        edge_normal(a, b),
        Double { bits: PROFILE_START } + double::whole(s) * Double { bits: SPACING },
    )
}

/// A point is in the frame.
pub open spec fn is_in_frame(luma: &Luma, p: Point) -> bool {
    let right = double::whole(luma.width - 1);
    let bottom = double::whole(luma.height - 1);
    let zero = Double { bits: 0 };
    !p[0].less(zero) && !p[1].less(zero) && !right.less(p[0]) && !bottom.less(p[1])
}

/// Step of the luma from sample `s` to the next.
pub open spec fn luma_step(
    luma: &Luma,
    a: Point,
    b: Point,
    k: int,
    s: int,
) -> Double {
    luma.at(sample_point(a, b, k, s + 1)) - luma.at(sample_point(a, b, k, s))
}

/// Squared steps of the first `n`, summed.
pub open spec fn weight_sum(
    luma: &Luma,
    a: Point,
    b: Point,
    k: int,
    n: int,
) -> Double
    decreases n,
{
    if n <= 0 {
        Double { bits: 0 }
    } else {
        weight_sum(luma, a, b, k, n - 1) + luma_step(luma, a, b, k, n - 1) * luma_step(
            luma,
            a,
            b,
            k,
            n - 1,
        )
    }
}

/// Squared steps of the first `n`, each times where it is, summed.
pub open spec fn moment_sum(
    luma: &Luma,
    a: Point,
    b: Point,
    k: int,
    n: int,
) -> Double
    decreases n,
{
    if n <= 0 {
        Double { bits: 0 }
    } else {
        let step = luma_step(luma, a, b, k, n - 1);
        moment_sum(luma, a, b, k, n - 1) + (step * step) * (Double { bits: PROFILE_START }
            + and_a_half(n - 1) * Double { bits: SPACING })
    }
}

/// The edge point of profile `k`: the centroid of the transition, weighted by
/// squared gradient; none when the profile leaves the frame or is flat.
pub open spec fn edge_point(
    luma: &Luma,
    a: Point,
    b: Point,
    k: int,
) -> Option<Point> {
    let last = SAMPLES - 1;
    if exists|s: int|
        0 <= s < SAMPLES && !is_in_frame(luma, #[trigger] sample_point(a, b, k, s)) {
        None
    } else if weight_sum(luma, a, b, k, last).less(Double { bits: MIN_EDGE_WEIGHT }) {
        None
    } else {
        Some(
            off_edge(
                profile_centre(a, b, k),
                edge_normal(a, b),
                moment_sum(luma, a, b, k, last).per(weight_sum(luma, a, b, k, last)),
            ),
        )
    }
}

/// The edge points of the first `n` profiles.
pub open spec fn edge_points(
    luma: &Luma,
    a: Point,
    b: Point,
    n: int,
) -> Seq<Point>
    decreases n,
{
    if n <= 0 {
        Seq::empty()
    } else {
        match edge_point(luma, a, b, n - 1) {
            Some(p) => edge_points(luma, a, b, n - 1).push(p),
            None => edge_points(luma, a, b, n - 1),
        }
    }
}

/// Sum of one coordinate of the first `n` points.
pub open spec fn coordinate_sum(pts: Seq<Point>, axis: int, n: int) -> Double
    decreases n,
{
    if n <= 0 {
        Double { bits: 0 }
    } else {
        coordinate_sum(pts, axis, n - 1) + pts[n - 1][axis]
    }
}

/// Mean of one coordinate.
pub open spec fn mean_of(pts: Seq<Point>, axis: int) -> Double {
    coordinate_sum(pts, axis, pts.len() as int).per(double::whole(pts.len() as int))
}

/// Sum over the first `n` points of one coordinate's offset from the mean times
/// another's.
pub open spec fn scatter(pts: Seq<Point>, first: int, second: int, n: int) -> Double
    decreases n,
{
    if n <= 0 {
        Double { bits: 0 }
    } else {
        scatter(pts, first, second, n - 1) + (pts[n - 1][first] - mean_of(pts, first)) * (pts[n
            - 1][second] - mean_of(pts, second))
    }
}

/// Eigenvector of the smaller eigenvalue of [[sxx, sxy], [sxy, syy]], not
/// scaled.
pub open spec fn normal_direction(sxx: Double, sxy: Double, syy: Double) -> Point {
    let tr = sxx + syy;
    let det = sxx * syy - sxy * sxy;
    let disc = double::larger(
        (tr * tr).per(Double { bits: FOUR }) - det,
        Double { bits: 0 },
    ).root();
    let smaller = tr.per(Double { bits: TWO }) - disc;
    if (Double { bits: TINY }).less(sxy.size()) {
        [smaller - syy, sxy]
    } else if sxx.at_most(syy) {
        [Double { bits: ONE }, Double { bits: 0 }]
    } else {
        [Double { bits: 0 }, Double { bits: ONE }]
    }
}

/// Total least squares line through points.
pub open spec fn line_through(pts: Seq<Point>) -> Option<Line> {
    let n = pts.len() as int;
    let dir = normal_direction(scatter(pts, 0, 0, n), scatter(pts, 0, 1, n), scatter(pts, 1, 1, n));
    let norm = (dir[0] * dir[0] + dir[1] * dir[1]).root();
    let u = dir[0].per(norm);
    let v = dir[1].per(norm);
    if norm.less(Double { bits: TINY }) {
        None
    } else {
        Some([u, v, (u * mean_of(pts, 0) + v * mean_of(pts, 1)).opposite()])
    }
}

/// The line of the edge between corners `a` and `b`.
pub open spec fn edge_line(
    luma: &Luma,
    a: Point,
    b: Point,
) -> Option<Line> {
    let pts = edge_points(luma, a, b, PROFILES as int);
    if edge_length(a, b).less(Double { bits: MIN_EDGE }) || pts.len() < MIN_EDGE_POINTS {
        None
    } else {
        line_through(pts)
    }
}

fn in_frame(luma: &Luma, p: &Point) -> (inside: bool)
    requires
        luma.wf(),
    ensures
        inside == is_in_frame(luma, *p),
{
    let right: Double = Double::from_count((luma.width - 1) as u64);
    let bottom: Double = Double::from_count((luma.height - 1) as u64);
    let zero: Double = Double::from_bits(0);
    !p[0].lt(&zero) && !p[1].lt(&zero) && !right.lt(&p[0]) && !bottom.lt(&p[1])
}

fn step_off(p: &Point, normal: &Point, d: Double) -> (q: Point)
    ensures
        q == off_edge(*p, *normal, d),
{
    [p[0] + d * normal[0], p[1] + d * normal[1]]
}

/// Locate the transition along profile `k`.
fn find_edge_point(
    luma: &Luma,
    a: &Point,
    b: &Point,
    normal: &Point,
    k: usize,
) -> (found: Option<Point>)
    requires
        luma.wf(),
        *normal == edge_normal(*a, *b),
        k < PROFILES,
    ensures
        found == edge_point(luma, *a, *b, k as int),
{
    let half: Double = Double::from_bits(SPACING);
    let t: Double = Double::from_bits(FIRST_PROFILE) + Double::from_bits(PROFILE_SPREAD) * (
    Double::from_count(k as u64) + half) / Double::from_bits(PROFILE_COUNT);
    let centre: Point = [a[0] + t * (b[0] - a[0]), a[1] + t * (b[1] - a[1])];
    let start: Double = Double::from_bits(PROFILE_START);
    let mut profile: Vec<Double> = Vec::new();
    let mut s: usize = 0;
    while s < SAMPLES
        invariant
            luma.wf(),
            k < PROFILES,
            half == (Double { bits: SPACING }),
            start == (Double { bits: PROFILE_START }),
            centre == profile_centre(*a, *b, k as int),
            *normal == edge_normal(*a, *b),
            s <= SAMPLES,
            profile@.len() == s,
            forall|i: int|
                0 <= i < s ==> #[trigger] profile@[i] == luma.at(sample_point(*a, *b, k as int, i)),
            forall|i: int|
                0 <= i < s ==> is_in_frame(luma, #[trigger] sample_point(*a, *b, k as int, i)),
        decreases SAMPLES - s,
    {
        let p: Point = step_off(&centre, normal, start + Double::from_count(s as u64) * half);
        assert(p == sample_point(*a, *b, k as int, s as int));
        if !in_frame(luma, &p) {
            return None;
        }
        let v: Double = luma.sample(&p);
        profile.push(v);
        s = s + 1;
    }
    let mut wsum: Double = Double::from_bits(0);
    let mut dsum: Double = Double::from_bits(0);
    let mut i: usize = 0;
    while i < SAMPLES - 1
        invariant
            half == (Double { bits: SPACING }),
            start == (Double { bits: PROFILE_START }),
            i <= SAMPLES - 1,
            profile@.len() == SAMPLES,
            forall|j: int|
                0 <= j < SAMPLES
                    ==> #[trigger] profile@[j] == luma.at(sample_point(*a, *b, k as int, j)),
            wsum == weight_sum(luma, *a, *b, k as int, i as int),
            dsum == moment_sum(luma, *a, *b, k as int, i as int),
        decreases SAMPLES - i,
    {
        let g: Double = profile[i + 1] - profile[i];
        let w: Double = g * g;
        assert(g == luma_step(luma, *a, *b, k as int, i as int));
        wsum = wsum + w;
        dsum = dsum + w * (start + (Double::from_count(i as u64) + half) * half);
        i = i + 1;
    }
    if wsum.lt(&Double::from_bits(MIN_EDGE_WEIGHT)) {
        return None;
    }
    Some(step_off(&centre, normal, dsum / wsum))
}

/// Mean of one coordinate.
pub fn mean_coordinate(pts: &Vec<Point>, axis: usize) -> (m: Double)
    requires
        axis < 2,
        pts@.len() < 0x20_0000_0000_0000,
    ensures
        m == mean_of(pts@, axis as int),
{
    let mut acc: Double = Double::from_bits(0);
    let mut i: usize = 0;
    while i < pts.len()
        invariant
            axis < 2,
            i <= pts@.len(),
            acc == coordinate_sum(pts@, axis as int, i as int),
        decreases pts@.len() - i,
    {
        acc = acc + pts[i][axis];
        i = i + 1;
    }
    acc / Double::from_count(pts.len() as u64)
}

fn scatter_sum(pts: &Vec<Point>, first: usize, second: usize, m1: &Double, m2: &Double) -> (acc:
    Double)
    requires
        first < 2,
        second < 2,
        *m1 == mean_of(pts@, first as int),
        *m2 == mean_of(pts@, second as int),
    ensures
        acc == scatter(pts@, first as int, second as int, pts@.len() as int),
{
    let mut acc: Double = Double::from_bits(0);
    let mut i: usize = 0;
    while i < pts.len()
        invariant
            first < 2,
            second < 2,
            *m1 == mean_of(pts@, first as int),
            *m2 == mean_of(pts@, second as int),
            i <= pts@.len(),
            acc == scatter(pts@, first as int, second as int, i as int),
        decreases pts@.len() - i,
    {
        acc = acc + (pts[i][first] - *m1) * (pts[i][second] - *m2);
        i = i + 1;
    }
    acc
}

/// Total least squares line through points.
fn fit_line(pts: &Vec<Point>) -> (line: Option<Line>)
    requires
        pts@.len() < 0x20_0000_0000_0000,
    ensures
        line == line_through(pts@),
{
    let mx: Double = mean_coordinate(pts, 0);
    let my: Double = mean_coordinate(pts, 1);
    let sxx: Double = scatter_sum(pts, 0, 0, &mx, &mx);
    let sxy: Double = scatter_sum(pts, 0, 1, &mx, &my);
    let syy: Double = scatter_sum(pts, 1, 1, &my, &my);
    let zero: Double = Double::from_bits(0);
    // Normal of the best-fit line = eigenvector of the smaller eigenvalue.
    let tr: Double = sxx + syy;
    let det: Double = sxx * syy - sxy * sxy;
    let disc: Double = (tr * tr / Double::from_bits(FOUR) - det).max(&zero).sqrt();
    let smaller: Double = tr / Double::from_bits(TWO) - disc;
    let dir: Point = if Double::from_bits(TINY).lt(&sxy.abs()) {
        [smaller - syy, sxy]
    } else if sxx.le(&syy) {
        [Double::from_bits(ONE), zero]
    } else {
        [zero, Double::from_bits(ONE)]
    };
    let norm: Double = (dir[0] * dir[0] + dir[1] * dir[1]).sqrt();
    if norm.lt(&Double::from_bits(TINY)) {
        return None;
    }
    let u: Double = dir[0] / norm;
    let v: Double = dir[1] / norm;
    Some([u, v, (u * mx + v * my).negate()])
}

/// Fit the sub-pixel line of the dark-to-light edge between corners `a` and `b`.
pub fn fit_edge_line(luma: &Luma, a: &Point, b: &Point) -> (line: Option<Line>)
    requires
        luma.wf(),
    ensures
        line == edge_line(luma, *a, *b),
{
    let ex: Double = b[0] - a[0];
    let ey: Double = b[1] - a[1];
    let len: Double = (ex * ex + ey * ey).sqrt();
    if len.lt(&Double::from_bits(MIN_EDGE)) {
        return None;
    }
    let normal: Point = [ey.negate() / len, ex / len];
    assert(normal == edge_normal(*a, *b));
    let mut pts: Vec<Point> = Vec::new();
    let mut k: usize = 0;
    while k < PROFILES
        invariant
            luma.wf(),
            normal == edge_normal(*a, *b),
            k <= PROFILES,
            pts@ == edge_points(luma, *a, *b, k as int),
            pts@.len() <= k,
        decreases PROFILES - k,
    {
        if let Some(p) = find_edge_point(luma, a, b, &normal, k) {
            pts.push(p);
        }
        k = k + 1;
    }
    if pts.len() < MIN_EDGE_POINTS {
        return None;
    }
    fit_line(&pts)
}

/// Determinant of the normals of two lines.
pub open spec fn line_det(l1: Line, l2: Line) -> Double {
    l1[0] * l2[1] - l2[0] * l1[1]
}

/// Where two lines meet, unless they are parallel.
pub open spec fn intersection(l1: Line, l2: Line) -> Option<Point> {
    let det = line_det(l1, l2);
    if det.size().less(Double { bits: PARALLEL }) {
        None
    } else {
        Some(
            [
                (l1[1] * l2[2] - l2[1] * l1[2]).per(det),
                (l2[0] * l1[2] - l1[0] * l2[2]).per(det),
            ],
        )
    }
}

/// Where two lines meet, unless they are parallel.
pub fn intersect_lines(l1: &Line, l2: &Line) -> (p: Option<Point>)
    ensures
        p == intersection(*l1, *l2),
{
    let det: Double = l1[0] * l2[1] - l2[0] * l1[1];
    if det.abs().lt(&Double::from_bits(PARALLEL)) {
        return None;
    }
    Some([(l1[1] * l2[2] - l2[1] * l1[2]) / det, (l2[0] * l1[2] - l1[0] * l2[2]) / det])
}

/// Corner `nominal`, refined to where the lines of its edges meet; left alone
/// when an edge has no line, the lines are parallel or they meet too far away.
pub open spec fn refined_corner(nominal: Point, prev: Option<Line>, cur: Option<Line>) -> Point {
    match (prev, cur) {
        (Some(l1), Some(l2)) => match intersection(l1, l2) {
            Some(p) if ((p[0] - nominal[0]) * (p[0] - nominal[0]) + (p[1] - nominal[1]) * (p[1]
                - nominal[1])).root().at_most(Double { bits: MAX_MOVE }) => p,
            _ => nominal,
        },
        _ => nominal,
    }
}

fn refine_corner(nominal: &Point, prev: &Option<Line>, cur: &Option<Line>) -> (p: Point)
    ensures
        p == refined_corner(*nominal, *prev, *cur),
{
    if let Some(l1) = prev {
        if let Some(l2) = cur {
            if let Some(p) = intersect_lines(l1, l2) {
                let dx: Double = p[0] - nominal[0];
                let dy: Double = p[1] - nominal[1];
                if (dx * dx + dy * dy).sqrt().le(&Double::from_bits(MAX_MOVE)) {
                    return p;
                }
            }
        }
    }
    *nominal
}

/// The line of edge `e` of a quad, from corner `e` to the next.
pub open spec fn quad_line(luma: &Luma, quad: [Point; 4], e: int) -> Option<Line> {
    edge_line(luma, quad[e], quad[(e + 1) % 4])
}

/// A quad with its corners refined: corner `i` is where edge `i - 1` and edge
/// `i` meet.
pub open spec fn is_refined_quad(luma: &Luma, quad: [Point; 4], out: [Point; 4]) -> bool {
    forall|i: int|
        0 <= i < 4 ==> #[trigger] out[i] == refined_corner(
            quad[i],
            quad_line(luma, quad, (i + 3) % 4),
            quad_line(luma, quad, i),
        )
}

/// Refine the corners of a quad. Falls back to the input corner where refinement
/// diverges.
pub fn refine_corners(luma: &Luma, quad: &[Point; 4]) -> (out: [Point; 4])
    requires
        luma.wf(),
    ensures
        is_refined_quad(luma, *quad, out),
{
    let l0: Option<Line> = fit_edge_line(luma, &quad[0], &quad[1]);
    let l1: Option<Line> = fit_edge_line(luma, &quad[1], &quad[2]);
    let l2: Option<Line> = fit_edge_line(luma, &quad[2], &quad[3]);
    let l3: Option<Line> = fit_edge_line(luma, &quad[3], &quad[0]);
    [
        refine_corner(&quad[0], &l3, &l0),
        refine_corner(&quad[1], &l0, &l1),
        refine_corner(&quad[2], &l1, &l2),
        refine_corner(&quad[3], &l2, &l3),
    ]
}

} // verus!
