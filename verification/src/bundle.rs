//! The joint refinement behind self-calibration: the focal, the distortion and
//! every keyframe's pose, fitted to all that was measured at once.
use vstd::prelude::*;

use crate::calib;
use crate::calib::{self_calibrate_with, CalibOutcome, Problem};
use crate::closure;
use crate::closure::{anchor_corners_mm, clamp, Quad};
use crate::distortion;
use crate::distortion::Distortion;
use crate::double;
use crate::double::Double;
use crate::edge::Point;
use crate::least_squares;
use crate::least_squares::{cost, linearize_at, step_from, Increments, NormalEquations, Residuals};
use crate::linalg;
use crate::linalg::{mat3_inv, Mat3};
use crate::links::Matches;
use crate::lm;
use crate::pose;
use crate::pose::{decompose_pose, pose_h, project, Trig, Vec3};
use crate::refine;
use crate::refine::parameter_at;
use crate::solve;
use crate::solve::{copy_matrix, solve_in_place, Matrix};

verus! {

/// Weight of a marker corner: sub-pixel corners are the metric anchor, tracked
/// features are noisier and far more numerous. The bits of 2.0.
pub const MARKER_WEIGHT: u64 = 0x4000_0000_0000_0000;

/// Largest offset that a residual holds: the bits of 1e6.
pub const LARGEST_OFFSET: u64 = 0x412e_8480_0000_0000;

/// The bits of -1e6.
pub const SMALLEST_OFFSET: u64 = 0xc12e_8480_0000_0000;

/// Residual of a match that no pose can be inverted for: the bits of 1e4.
pub const LOST: u64 = 0x40c3_8800_0000_0000;

/// Relative increment of the focal, and the increment of k1: the bits of 1e-6.
pub const LENS_INCREMENT: u64 = 0x3eb0_c6f7_a0b5_ed8d;

/// Increment of a rotation (rad): the bits of 1e-7.
pub const TURN_INCREMENT: u64 = 0x3e7a_d7f2_9abc_af48;

/// Relative increment of a position: the bits of 1e-4.
pub const MOVE_INCREMENT: u64 = 0x3f1a_36e2_eb1c_432d;

/// Least size of a position (mm) that its increment is relative to: the bits of
/// 10.0.
pub const LEAST_POSITION: u64 = 0x4024_0000_0000_0000;

/// The bits of 1.0.
pub const ONE: u64 = 0x3ff0_0000_0000_0000;

/// Marker A as a keyframe shows it: its corners in raw measured px.
pub struct Sighting {
    pub keyframe: usize,
    pub corners: Quad,
}

/// What is refined jointly. All points are raw measured px. Marker B is left out
/// on purpose: it stays the pan's independent far-end check.
pub struct CalibInput {
    pub width: usize,
    pub height: usize,
    /// Physical marker side (mm, print-scale corrected).
    pub side_mm: Double,
    /// The k1 to start with; the chain is consistent with it.
    pub k1_init: Double,
    /// Wall->px chain to start with.
    pub w_chain: Vec<Mat3>,
    /// Marker A's wall corners are known: they anchor origin and scale.
    pub marker_a: Vec<Sighting>,
    /// Matches between each keyframe and the next.
    pub links: Vec<Matches>,
}

/// Number of residuals of the first `n` links.
pub open spec fn link_residuals(links: Seq<Matches>, n: int) -> int
    decreases n,
{
    if n <= 0 {
        0
    } else {
        link_residuals(links, n - 1) + 2 * links[n - 1].src@.len()
    }
}

impl CalibInput {
    /// Every sighting is in a keyframe, every link has a next keyframe, and there
    /// are no more observations than a double counts exactly.
    pub open spec fn wf(self) -> bool {
        &&& self.width < 0x20_0000_0000_0000
        &&& self.height < 0x20_0000_0000_0000
        &&& self.w_chain@.len() <= (usize::MAX - 22) / 6
        &&& forall|i: int|
            0 <= i < self.marker_a@.len() ==> (#[trigger] self.marker_a@[i]).keyframe
                < self.w_chain@.len()
        &&& forall|i: int| 0 <= i < self.links@.len() ==> (#[trigger] self.links@[i]).wf()
        &&& self.residual_count() < 0x20_0000_0000_0000
    }

    /// Number of residuals.
    pub open spec fn residual_count(self) -> int {
        8 * self.marker_a@.len() + link_residuals(self.links@, self.links@.len() as int)
    }

    /// The lens with these parameters.
    pub open spec fn lens(self, p: Seq<Double>) -> Distortion {
        Distortion {
            k1: refine::parameter(p, 1),
            cx: distortion::half(self.width as int),
            cy: distortion::half(self.height as int),
            r0: distortion::half_diagonal(self.width as int, self.height as int),
        }
    }

    /// Wall->px of keyframe `i` with these parameters.
    pub open spec fn pose(self, t: Trig, p: Seq<Double>, i: int) -> Mat3 {
        let at = 2 + 6 * i;
        pose::pose_matrix(
            refine::parameter(p, 0),
            self.lens(p).cx,
            self.lens(p).cy,
            pose::rotation_by(
                t,
                [refine::parameter(p, at), refine::parameter(p, at + 1), refine::parameter(p, at
                    + 2)],
            ),
            [refine::parameter(p, at + 3), refine::parameter(p, at + 4), refine::parameter(p, at
                + 5)],
        )
    }

    /// Wall->px of every keyframe.
    pub open spec fn poses(self, t: Trig, p: Seq<Double>) -> Seq<Mat3> {
        Seq::new(self.w_chain@.len(), |i: int| self.pose(t, p, i))
    }
}

/// A weighted offset between where a point is predicted and where it was
/// measured, by coordinate.
pub open spec fn offset(pred: Point, meas: Point, weight: Double) -> Point {
    let (lo, hi) = (Double { bits: SMALLEST_OFFSET }, Double { bits: LARGEST_OFFSET });
    [
        weight * closure::clamped(pred[0] - meas[0], lo, hi),
        weight * closure::clamped(pred[1] - meas[1], lo, hi),
    ]
}

/// Where a lens shows a point of the wall.
pub open spec fn shown(lens: Distortion, w: Mat3, wall: Point) -> Point {
    lens.distorted(pose::projected(w, wall[0], wall[1]))
}

/// The residuals of a sighting of Marker A.
pub open spec fn sighting_residuals(
    lens: Distortion,
    w: Mat3,
    world: Quad,
    seen: Quad,
) -> Seq<Double> {
    Seq::new(
        8,
        |k: int|
            offset(shown(lens, w, world[k / 2]), seen[k / 2], Double { bits: MARKER_WEIGHT })[k % 2],
    )
}

/// The residuals of the first `n` sightings.
pub open spec fn marker_part(
    lens: Distortion,
    w: Seq<Mat3>,
    world: Quad,
    seen: Seq<Sighting>,
    n: int,
) -> Seq<Double>
    decreases n,
{
    if n <= 0 {
        Seq::empty()
    } else {
        marker_part(lens, w, world, seen, n - 1) + sighting_residuals(
            lens,
            w[seen[n - 1].keyframe as int],
            world,
            seen[n - 1].corners,
        )
    }
}

/// Where a point of one keyframe shows up in the next: by way of the wall plane,
/// so that a point on it needs no parameters of its own.
pub open spec fn transferred(lens: Distortion, back: Mat3, next: Mat3, p: Point) -> Point {
    let ideal = lens.undistorted(p);
    shown(lens, next, pose::projected(back, ideal[0], ideal[1]))
}

/// The residuals of a link between two keyframes.
pub open spec fn transfer_residuals(
    lens: Distortion,
    from: Mat3,
    to: Mat3,
    src: Seq<Point>,
    dst: Seq<Point>,
) -> Seq<Double> {
    match linalg::inverse_of(from) {
        Some(back) => Seq::new(
            2 * src.len(),
            |k: int|
                offset(
                    transferred(lens, back, to, src[k / 2]),
                    dst[k / 2],
                    Double { bits: ONE },
                )[k % 2],
        ),
        None => Seq::new(2 * src.len(), |k: int| Double { bits: LOST }),
    }
}

/// The residuals of the first `n` links.
pub open spec fn link_part(lens: Distortion, w: Seq<Mat3>, links: Seq<Matches>, n: int) -> Seq<
    Double,
>
    decreases n,
{
    if n <= 0 {
        Seq::empty()
    } else {
        link_part(lens, w, links, n - 1) + transfer_residuals(
            lens,
            w[n - 1],
            w[n],
            links[n - 1].src@,
            links[n - 1].dst@,
        )
    }
}

/// All residuals, of sightings first.
pub open spec fn residuals_given(input: CalibInput, lens: Distortion, w: Seq<Mat3>) -> Seq<Double> {
    marker_part(
        lens,
        w,
        closure::square_of(input.side_mm),
        input.marker_a@,
        input.marker_a@.len() as int,
    ) + link_part(lens, w, input.links@, input.links@.len() as int)
}

/// All residuals as a function of the parameters.
pub open spec fn residuals_of(t: Trig, input: CalibInput) -> Residuals {
    |p: Seq<Double>| residuals_given(input, input.lens(p), input.poses(t, p))
}

/// What a parameter is moved by to difference along it: the focal, k1, then
/// rotation and position of each pose.
pub open spec fn increment_of(p: Seq<Double>, j: int) -> Double {
    if j == 0 {
        Double { bits: LENS_INCREMENT } * double::larger(
            refine::parameter(p, 0).size(),
            Double { bits: ONE },
        )
    } else if j == 1 {
        Double { bits: LENS_INCREMENT }
    } else if (j - 2) % 6 < 3 {
        Double { bits: TURN_INCREMENT }
    } else {
        Double { bits: MOVE_INCREMENT } * double::larger(
            refine::parameter(p, j).size(),
            Double { bits: LEAST_POSITION },
        )
    }
}

/// The increments as a function of the parameters.
pub open spec fn increments_by() -> Increments {
    |p: Seq<Double>, j: int| increment_of(p, j)
}

/// The parameters of the first `n` keyframes that a focal starts with: each
/// homography of the chain decomposed with it.
pub open spec fn start_upto(t: Trig, input: CalibInput, f: Double, n: int) -> Option<Seq<Double>>
    decreases n,
{
    if n <= 0 {
        Some(seq![f, input.k1_init])
    } else {
        match start_upto(t, input, f, n - 1) {
            None => None,
            Some(p) => match pose::decomposed(
                t,
                input.w_chain@[n - 1],
                f,
                distortion::half(input.width as int),
                distortion::half(input.height as int),
            ) {
                None => None,
                Some((r, c)) => Some(p + seq![r[0], r[1], r[2], c[0], c[1], c[2]]),
            },
        }
    }
}

/// The unit vector along axis `i`.
pub open spec fn unit_vector(n: nat, i: int) -> Seq<Double> {
    Seq::new(
        n,
        |k: int|
            if k == i {
                Double { bits: ONE }
            } else {
                Double { bits: 0 }
            },
    )
}

/// Entry `i` of the diagonal of a matrix's inverse.
pub open spec fn inverse_entry(a: Seq<Seq<Double>>, i: int) -> Option<Double> {
    match solve::solution(a, unit_vector(a.len(), i)) {
        Some(x) if i < x.len() => Some(x[i]),
        _ => None,
    }
}

/// The joint refinement of these observations.
pub open spec fn problem_of(t: Trig, input: CalibInput) -> Problem<
    Seq<Double>,
    (Seq<Seq<Double>>, Seq<Double>),
> {
    let f = residuals_of(t, input);
    let h = increments_by();
    Problem {
        start: |focal: Double| start_upto(t, input, focal, input.w_chain@.len() as int),
        measure: |p: Seq<Double>| (f(p).len() as usize, least_squares::cost_of(f(p))),
        linear: least_squares::linear_of(f, h),
        stepping: least_squares::stepping_of(f),
        lens: |p: Seq<Double>| (refine::parameter(p, 0), refine::parameter(p, 1)),
        bend: |p: Seq<Double>|
            {
                let jtj = least_squares::normal_equations_of(f, h, p).0;
                (inverse_entry(jtj, 0), inverse_entry(jtj, 1))
            },
        chain: |p: Seq<Double>| input.poses(t, p),
    }
}

fn push_offset(out: &mut Vec<Double>, pred: &Point, meas: &Point, weight: &Double)
    ensures
        final(out)@ == old(out)@.push(offset(*pred, *meas, *weight)[0]).push(
            offset(*pred, *meas, *weight)[1],
        ),
{
    let lo: Double = Double::from_bits(SMALLEST_OFFSET);
    let hi: Double = Double::from_bits(LARGEST_OFFSET);
    out.push(*weight * clamp(pred[0] - meas[0], lo, hi));
    out.push(*weight * clamp(pred[1] - meas[1], lo, hi));
}

fn show(lens: &Distortion, w: &Mat3, wall: &Point) -> (p: Point)
    ensures
        p == shown(*lens, *w, *wall),
{
    lens.distort(project(w, wall[0], wall[1]))
}

fn push_sighting(out: &mut Vec<Double>, lens: &Distortion, w: &Mat3, world: &Quad, seen: &Quad)
    ensures
        final(out)@ == old(out)@ + sighting_residuals(*lens, *w, *world, *seen),
{
    let ghost before = out@;
    let ghost all = sighting_residuals(*lens, *w, *world, *seen);
    let weight: Double = Double::from_bits(MARKER_WEIGHT);
    let mut k: usize = 0;
    assert(out@ =~= before + all.take(0));
    while k < 4
        invariant
            k <= 4,
            all == sighting_residuals(*lens, *w, *world, *seen),
            weight == (Double { bits: MARKER_WEIGHT }),
            out@ == before + all.take(2 * k),
        decreases 4 - k,
    {
        let pred: Point = show(lens, w, &world[k]);
        push_offset(out, &pred, &seen[k], &weight);
        assert(out@ =~= before + all.take(2 * (k + 1)));
        k = k + 1;
    }
    assert(all.take(8) =~= all);
}

fn push_transfer(
    out: &mut Vec<Double>,
    lens: &Distortion,
    from: &Mat3,
    to: &Mat3,
    m: &Matches,
)
    requires
        m.wf(),
    ensures
        final(out)@ == old(out)@ + transfer_residuals(*lens, *from, *to, m.src@, m.dst@),
{
    let ghost before = out@;
    let ghost all = transfer_residuals(*lens, *from, *to, m.src@, m.dst@);
    let inverse: Option<Mat3> = mat3_inv(from);
    let one: Double = Double::from_bits(ONE);
    let mut k: usize = 0;
    assert(out@ =~= before + all.take(0));
    while k < m.src.len()
        invariant
            m.wf(),
            k <= m.src@.len(),
            inverse == linalg::inverse_of(*from),
            one == (Double { bits: ONE }),
            all == transfer_residuals(*lens, *from, *to, m.src@, m.dst@),
            all.len() == 2 * m.src@.len(),
            out@ == before + all.take(2 * k),
        decreases m.src@.len() - k,
    {
        match &inverse {
            Some(back) => {
                let ideal: Point = lens.undistort(m.src[k]);
                let wall: Point = project(back, ideal[0], ideal[1]);
                let pred: Point = show(lens, to, &wall);
                push_offset(out, &pred, &m.dst[k], &one);
            },
            None => {
                out.push(Double::from_bits(LOST));
                out.push(Double::from_bits(LOST));
            },
        }
        assert(out@ =~= before + all.take(2 * (k + 1)));
        k = k + 1;
    }
    assert(all.take(2 * k) =~= all);
}

proof fn lemma_marker_count(
    lens: Distortion,
    w: Seq<Mat3>,
    world: Quad,
    seen: Seq<Sighting>,
    n: int,
)
    requires
        n >= 0,
    ensures
        marker_part(lens, w, world, seen, n).len() == 8 * n,
    decreases n,
{
    if n > 0 {
        lemma_marker_count(lens, w, world, seen, n - 1);
    }
}

proof fn lemma_link_count(lens: Distortion, w: Seq<Mat3>, links: Seq<Matches>, n: int)
    requires
        n >= 0,
    ensures
        link_part(lens, w, links, n).len() == link_residuals(links, n),
    decreases n,
{
    if n > 0 {
        lemma_link_count(lens, w, links, n - 1);
    }
}

fn gather(input: &CalibInput, lens: &Distortion, w: &Vec<Mat3>) -> (out: Vec<Double>)
    requires
        input.wf(),
        input.links@.len() < input.w_chain@.len(),
        w@.len() == input.w_chain@.len(),
    ensures
        out@ == residuals_given(*input, *lens, w@),
        out@.len() == input.residual_count(),
{
    let world: Quad = anchor_corners_mm(input.side_mm);
    let mut out: Vec<Double> = Vec::new();
    let mut i: usize = 0;
    while i < input.marker_a.len()
        invariant
            input.wf(),
            w@.len() == input.w_chain@.len(),
            world == closure::square_of(input.side_mm),
            i <= input.marker_a@.len(),
            out@ == marker_part(*lens, w@, world, input.marker_a@, i as int),
        decreases input.marker_a@.len() - i,
    {
        let seen: &Sighting = &input.marker_a[i];
        push_sighting(&mut out, lens, &w[seen.keyframe], &world, &seen.corners);
        i = i + 1;
    }
    let ghost markers = out@;
    let mut j: usize = 0;
    assert(out@ =~= markers + link_part(*lens, w@, input.links@, 0));
    while j < input.links.len()
        invariant
            input.wf(),
            input.links@.len() < input.w_chain@.len(),
            w@.len() == input.w_chain@.len(),
            j <= input.links@.len(),
            out@ == markers + link_part(*lens, w@, input.links@, j as int),
        decreases input.links@.len() - j,
    {
        push_transfer(&mut out, lens, &w[j], &w[j + 1], &input.links[j]);
        assert(out@ =~= markers + link_part(*lens, w@, input.links@, j + 1));
        j = j + 1;
    }
    proof {
        lemma_marker_count(*lens, w@, world, input.marker_a@, input.marker_a@.len() as int);
        lemma_link_count(*lens, w@, input.links@, input.links@.len() as int);
    }
    out
}

fn lay_poses<SinCos: Fn(Double) -> (Double, Double)>(
    input: &CalibInput,
    sin_cos: &SinCos,
    p: &Vec<Double>,
) -> (w: Vec<Mat3>)
    requires
        input.wf(),
        forall|a: Double| call_requires(sin_cos, (a,)),
    ensures
        w@.len() == input.w_chain@.len(),
        forall|t: Trig| #[trigger] pose::is_sine(sin_cos, t) ==> w@ == input.poses(t, p@),
{
    let two: Double = Double::from_bits(distortion::TWO);
    let f: Double = parameter_at(p, 0);
    let cx: Double = Double::from_count(input.width as u64) / two;
    let cy: Double = Double::from_count(input.height as u64) / two;
    let n: usize = input.w_chain.len();
    let mut w: Vec<Mat3> = Vec::new();
    let mut i: usize = 0;
    while i < n
        invariant
            input.wf(),
            n == input.w_chain@.len(),
            forall|a: Double| call_requires(sin_cos, (a,)),
            f == refine::parameter(p@, 0),
            cx == distortion::half(input.width as int),
            cy == distortion::half(input.height as int),
            i <= n,
            w@.len() == i,
            forall|t: Trig, k: int|
                #![trigger pose::is_sine(sin_cos, t), w@[k]]
                pose::is_sine(sin_cos, t) && 0 <= k < i ==> w@[k] == input.pose(t, p@, k),
        decreases n - i,
    {
        let at: usize = 2 + 6 * i;
        let r: Vec3 = [parameter_at(p, at), parameter_at(p, at + 1), parameter_at(p, at + 2)];
        let c: Vec3 = [parameter_at(p, at + 3), parameter_at(p, at + 4), parameter_at(p, at + 5)];
        let ghost before = w@;
        w.push(pose_h(sin_cos, &f, &cx, &cy, &r, &c));
        assert forall|t: Trig, k: int|
            #![trigger pose::is_sine(sin_cos, t), w@[k]]
            pose::is_sine(sin_cos, t) && 0 <= k < i + 1 implies w@[k] == input.pose(
            t,
            p@,
            k,
        ) by {
            if k < i {
                assert(w@[k] == before[k]);
            }
        }
        i = i + 1;
    }
    proof {
        assert forall|t: Trig| #[trigger] pose::is_sine(sin_cos, t) implies w@ == input.poses(
            t,
            p@,
        ) by {
            assert forall|k: int| 0 <= k < n implies w@[k] == #[trigger] input.poses(t, p@)[k] by {
                assert(w@[k] == input.pose(t, p@, k));
            }
            assert(w@ =~= input.poses(t, p@));
        }
    }
    w
}

/// All residuals at these parameters.
pub fn residuals<SinCos: Fn(Double) -> (Double, Double)>(
    input: &CalibInput,
    sin_cos: &SinCos,
    p: &Vec<Double>,
) -> (r: Vec<Double>)
    requires
        input.wf(),
        input.links@.len() < input.w_chain@.len(),
        forall|a: Double| call_requires(sin_cos, (a,)),
    ensures
        r@.len() == input.residual_count(),
        forall|t: Trig| #[trigger]
            pose::is_sine(sin_cos, t) ==> r@ == residuals_of(t, *input)(p@),
{
    let lens: Distortion = Distortion::new(input.width, input.height, parameter_at(p, 1));
    let w: Vec<Mat3> = lay_poses(input, sin_cos, p);
    gather(input, &lens, &w)
}

fn param_step(p: &Vec<Double>, j: usize) -> (d: Double)
    ensures
        d == increment_of(p@, j as int),
{
    if j == 0 {
        Double::from_bits(LENS_INCREMENT) * parameter_at(p, 0).abs().max(&Double::from_bits(ONE))
    } else if j == 1 {
        Double::from_bits(LENS_INCREMENT)
    } else if (j - 2) % 6 < 3 {
        Double::from_bits(TURN_INCREMENT)
    } else {
        Double::from_bits(MOVE_INCREMENT) * parameter_at(p, j).abs().max(
            &Double::from_bits(LEAST_POSITION),
        )
    }
}

/// What parameters hold.
pub open spec fn held(p: Option<Vec<Double>>) -> Option<Seq<Double>> {
    match p {
        Some(p) => Some(p@),
        None => None,
    }
}

fn set_up<Acos: Fn(Double) -> Double>(input: &CalibInput, acos: &Acos, f: Double) -> (p: Option<
    Vec<Double>,
>)
    requires
        input.wf(),
        forall|a: Double| call_requires(acos, (a,)),
    ensures
        forall|t: Trig| #[trigger]
            pose::is_arc(acos, t) ==> held(p) == start_upto(
                t,
                *input,
                f,
                input.w_chain@.len() as int,
            ),
{
    let two: Double = Double::from_bits(distortion::TWO);
    let cx: Double = Double::from_count(input.width as u64) / two;
    let cy: Double = Double::from_count(input.height as u64) / two;
    let mut p: Vec<Double> = vec![f, input.k1_init];
    let mut i: usize = 0;
    assert(p@ =~= seq![f, input.k1_init]);
    while i < input.w_chain.len()
        invariant
            input.wf(),
            forall|a: Double| call_requires(acos, (a,)),
            cx == distortion::half(input.width as int),
            cy == distortion::half(input.height as int),
            i <= input.w_chain@.len(),
            forall|t: Trig| #[trigger]
                pose::is_arc(acos, t) ==> start_upto(t, *input, f, i as int) == Some(p@),
        decreases input.w_chain@.len() - i,
    {
        match decompose_pose(acos, &input.w_chain[i], &f, &cx, &cy) {
            None => {
                proof {
                    assert forall|t: Trig| #[trigger] pose::is_arc(acos, t) implies start_upto(
                        t,
                        *input,
                        f,
                        input.w_chain@.len() as int,
                    ) is None by {
                        lemma_start_fails(t, *input, f, i + 1, input.w_chain@.len() as int);
                    }
                }
                return None;
            },
            Some((r, c)) => {
                let ghost before = p@;
                p.push(r[0]);
                p.push(r[1]);
                p.push(r[2]);
                p.push(c[0]);
                p.push(c[1]);
                p.push(c[2]);
                assert(p@ =~= before + seq![r[0], r[1], r[2], c[0], c[1], c[2]]);
            },
        }
        i = i + 1;
    }
    Some(p)
}

proof fn lemma_start_fails(t: Trig, input: CalibInput, f: Double, i: int, n: int)
    requires
        0 <= i <= n,
        start_upto(t, input, f, i) is None,
    ensures
        start_upto(t, input, f, n) is None,
    decreases n,
{
    if i < n {
        lemma_start_fails(t, input, f, i, n - 1);
    }
}

fn invert_entry(a: &Matrix, i: usize) -> (v: Option<Double>)
    requires
        solve::is_shaped(solve::entries(a@), a@.len() as int, a@.len() as int),
    ensures
        v == inverse_entry(solve::entries(a@), i as int),
{
    let ghost rows = solve::entries(a@);
    let mut m: Matrix = copy_matrix(a);
    assert(m@.len() == solve::entries(m@).len());
    let mut e: Vec<Double> = Vec::new();
    let mut k: usize = 0;
    while k < a.len()
        invariant
            k <= a@.len(),
            e@.len() == k,
            forall|j: int|
                0 <= j < k ==> #[trigger] e@[j] == (if j == i {
                    Double { bits: ONE }
                } else {
                    Double { bits: 0 }
                }),
        decreases a@.len() - k,
    {
        if k == i {
            e.push(Double::from_bits(ONE));
        } else {
            e.push(Double::from_bits(0));
        }
        k = k + 1;
    }
    assert(e@ =~= unit_vector(rows.len(), i as int));
    if !solve_in_place(&mut m, &mut e) {
        return None;
    }
    if i < e.len() {
        Some(e[i])
    } else {
        None
    }
}

/// Jointly refine {focal, k1, keyframe poses} over a pan's correspondences, then
/// apply the conditioning gates: jointly optimal over all observations at once,
/// unlike a chain of pairwise links, which compounds their errors.
pub fn self_calibrate<
    SinCos: Fn(Double) -> (Double, Double),
    Acos: Fn(Double) -> Double,
>(input: &CalibInput, sin_cos: &SinCos, acos: &Acos) -> (outcome: CalibOutcome)
    requires
        input.wf(),
        pose::are_curves(sin_cos, acos),
    ensures
        calib::is_as_long(outcome, input.w_chain@.len()),
        !calib::is_eligible(
            input.w_chain@.len() as int,
            input.marker_a@.len() as int,
            input.links@.len() as int,
        ) ==> outcome is Refused,
        forall|t: Trig| #[trigger]
            pose::is_sine(sin_cos, t) && #[trigger] pose::is_arc(acos, t) ==> calib::is_calibrated(
                problem_of(t, *input),
                input.width as int,
                input.height as int,
                input.w_chain@,
                input.marker_a@.len() as int,
                input.links@.len() as int,
                outcome,
            ),
{
    if !calib::eligible(input.w_chain.len(), input.marker_a.len(), input.links.len()) {
        return CalibOutcome::Refused;
    }
    let evaluate = |p: &Vec<Double>| -> (r: Vec<Double>)
        ensures
            r@.len() == input.residual_count(),
            forall|t: Trig| #[trigger]
                pose::is_sine(sin_cos, t) ==> r@ == residuals_of(t, *input)(p@),
        { residuals(input, sin_cos, p) };
    let increment = |p: &Vec<Double>, j: usize| -> (d: Double)
        ensures
            d == increments_by()(p@, j as int),
        { param_step(p, j) };
    assert(least_squares::increments(&increment, increments_by()));
    assert forall|t: Trig| #[trigger] pose::is_sine(sin_cos, t) implies least_squares::measures(
        &evaluate,
        residuals_of(t, *input),
    ) by {}
    let init = |f: Double| -> (p: Option<Vec<Double>>)
        ensures
            forall|t: Trig| #[trigger]
                pose::is_arc(acos, t) ==> held(p) == (problem_of(t, *input).start)(f),
        { set_up(input, acos, f) };
    let measure = |p: &Vec<Double>| -> (m: (usize, Double))
        ensures
            m.0 < 0x20_0000_0000_0000,
            forall|t: Trig| #[trigger]
                pose::is_sine(sin_cos, t) ==> m == (problem_of(t, *input).measure)(p@),
        {
            let r: Vec<Double> = residuals(input, sin_cos, p);
            (r.len(), cost(&r))
        };
    let linearize = |p: &Vec<Double>| -> (l: NormalEquations)
        ensures
            forall|t: Trig| #[trigger]
                pose::is_sine(sin_cos, t) ==> l@ == (problem_of(t, *input).linear)(p@),
        { linearize_at(&evaluate, &increment, p) };
    let step = |p: &Vec<Double>, l: &NormalEquations, damping: &Double| -> (next: Option<
        (Vec<Double>, Double),
    >)
        ensures
            forall|t: Trig| #[trigger]
                pose::is_sine(sin_cos, t) ==> lm::reached(next) == (problem_of(
                    t,
                    *input,
                ).stepping)(p@, l@, *damping),
        { step_from(&evaluate, p, l, damping) };
    let intrinsics = |p: &Vec<Double>| -> (lens: (Double, Double))
        ensures
            lens == (refine::parameter(p@, 0), refine::parameter(p@, 1)),
        { (parameter_at(p, 0), parameter_at(p, 1)) };
    let curvature = |p: &Vec<Double>| -> (bend: (Option<Double>, Option<Double>))
        ensures
            forall|t: Trig| #[trigger]
                pose::is_sine(sin_cos, t) ==> bend == (problem_of(t, *input).bend)(p@),
        {
            let l: NormalEquations = linearize_at(&evaluate, &increment, p);
            assert(l.jtj@.len() == l@.0.len());
            (invert_entry(&l.jtj, 0), invert_entry(&l.jtj, 1))
        };
    let chain = |p: &Vec<Double>| -> (w: Vec<Mat3>)
        ensures
            w@.len() == input.w_chain@.len(),
            forall|t: Trig| #[trigger]
                pose::is_sine(sin_cos, t) ==> w@ == input.poses(t, p@),
        { lay_poses(input, sin_cos, p) };
    assert forall|t: Trig| #[trigger] pose::is_sine(sin_cos, t) && #[trigger] pose::is_arc(
        acos,
        t,
    ) implies calib::is_posed(
        &init,
        &measure,
        &linearize,
        &step,
        problem_of(t, *input),
    ) && calib::is_read(&intrinsics, &curvature, &chain, problem_of(t, *input)) by {}
    assert(calib::lays(&chain, input.w_chain@.len()));
    self_calibrate_with(
        input.width,
        input.height,
        &input.w_chain,
        input.marker_a.len(),
        input.links.len(),
        &init,
        &measure,
        &linearize,
        &step,
        &intrinsics,
        &curvature,
        &chain,
    )
}

} // verus!
