//! Refinement of a homography over all eight degrees of freedom.
use vstd::prelude::*;

use crate::double;
use crate::double::Double;
use crate::edge::Point;
use crate::homography;
use crate::homography::{choose_chart, Chart, Homography};
use crate::least_squares;
use crate::least_squares::{cost, linearize_at, step_from, Increments, NormalEquations, Residuals};
use crate::linalg;
use crate::linalg::{mat3_mul, Mat3};
use crate::lm;
use crate::lm::{descend, Convergence};
use crate::order;

verus! {

/// Both residuals of a point at infinity: the bits of 1e6.
pub const FAR_OFF: u64 = 0x412e_8480_0000_0000;

/// What a parameter is moved by to difference along it, relative to its size:
/// the bits of 1e-7.
pub const INCREMENT: u64 = 0x3e7a_d7f2_9abc_af48;

/// Least size of a parameter that the increment is relative to: the bits of
/// 1e-4.
pub const LEAST_PARAMETER: u64 = 0x3f1a_36e2_eb1c_432d;

/// Cost below which a refinement stops: the bits of 1e-20.
pub const SMALL_COST: u64 = 0x3bc7_9ca1_0c92_4223;

/// Steps at most.
pub const REFINE_ITERATIONS: usize = 50;

/// A parameter, or zero where there is none.
pub open spec fn parameter(p: Seq<Double>, i: int) -> Double {
    if 0 <= i < p.len() {
        p[i]
    } else {
        Double { bits: 0 }
    }
}

/// The homography with these eight entries whose last entry is 1.
pub open spec fn in_chart(p: Seq<Double>) -> Mat3 {
    [
        parameter(p, 0),
        parameter(p, 1),
        parameter(p, 2),
        parameter(p, 3),
        parameter(p, 4),
        parameter(p, 5),
        parameter(p, 6),
        parameter(p, 7),
        Double { bits: linalg::ONE },
    ]
}

/// How far off its target a point is put, by coordinate.
pub open spec fn offset(h: Mat3, s: Point, e: Point) -> Point {
    match homography::image_of(h, s[0], s[1]) {
        Some((u, v)) => [u - e[0], v - e[1]],
        None => [Double { bits: FAR_OFF }, Double { bits: FAR_OFF }],
    }
}

/// The offsets of all points, two entries for each.
pub open spec fn offsets(h: Mat3, src: Seq<Point>, dst: Seq<Point>) -> Seq<Double> {
    Seq::new(2 * src.len(), |i: int| offset(h, src[i / 2], dst[i / 2])[i % 2])
}

/// The offsets as a function of the parameters.
pub open spec fn offsets_by(src: Seq<Point>, dst: Seq<Point>) -> Residuals {
    |p: Seq<Double>| offsets(in_chart(p), src, dst)
}

/// What a parameter is moved by to difference along it.
pub open spec fn increment_of(p: Seq<Double>, j: int) -> Double {
    Double { bits: INCREMENT } * double::larger(
        parameter(p, j).size(),
        Double { bits: LEAST_PARAMETER },
    )
}

/// The increments as a function of the parameters.
pub open spec fn increments_by() -> Increments {
    |p: Seq<Double>, j: int| increment_of(p, j)
}

/// The first eight entries of a homography, relative to the last one.
pub open spec fn chart_parameters(h: Mat3) -> Seq<Double> {
    Seq::new(8, |i: int| h[i].per(h[8]))
}

/// The rule that ends a refinement.
pub open spec fn refine_rule() -> Convergence {
    Convergence::CostBelow(Double { bits: SMALL_COST })
}

/// What a homography whose last entry can be divided by is refined to.
pub open spec fn refined_directly(h: Mat3, src: Seq<Point>, dst: Seq<Point>) -> Mat3 {
    let f = offsets_by(src, dst);
    let p = chart_parameters(h);
    in_chart(
        lm::descent(
            least_squares::linear_of(f, increments_by()),
            least_squares::stepping_of(f),
            refine_rule(),
            p,
            least_squares::cost_of(f(p)),
            REFINE_ITERATIONS as nat,
        ).0,
    )
}

/// Points relative to a new origin.
pub open spec fn about(pts: Seq<Point>, origin: Point) -> Seq<Point> {
    Seq::new(pts.len(), |i: int| [pts[i][0] - origin[0], pts[i][1] - origin[1]])
}

/// What a homography is refined to.
pub open spec fn refined_of(h: Mat3, src: Seq<Point>, dst: Seq<Point>) -> Mat3 {
    match homography::chart_of(h, src) {
        Chart::Direct => refined_directly(h, src, dst),
        Chart::Unrefined => h,
        Chart::Moved { origin, shifted } => linalg::mat_product(
            refined_directly(shifted, about(src, origin), dst),
            homography::translation([origin[0].opposite(), origin[1].opposite()]),
        ),
    }
}

/// A parameter, or zero where there is none.
pub fn parameter_at(p: &Vec<Double>, i: usize) -> (v: Double)
    ensures
        v == parameter(p@, i as int),
{
    if i < p.len() {
        p[i]
    } else {
        Double::from_bits(0)
    }
}

fn matrix_in_chart(p: &Vec<Double>) -> (h: Mat3)
    ensures
        h == in_chart(p@),
{
    [
        parameter_at(p, 0),
        parameter_at(p, 1),
        parameter_at(p, 2),
        parameter_at(p, 3),
        parameter_at(p, 4),
        parameter_at(p, 5),
        parameter_at(p, 6),
        parameter_at(p, 7),
        Double::from_bits(linalg::ONE),
    ]
}

fn chart_offsets(p: &Vec<Double>, src: &Vec<Point>, dst: &Vec<Point>) -> (r: Vec<Double>)
    requires
        src@.len() <= dst@.len(),
    ensures
        r@ == offsets(in_chart(p@), src@, dst@),
{
    let h: Homography = Homography(matrix_in_chart(p));
    let mut r: Vec<Double> = Vec::new();
    let mut i: usize = 0;
    while i < src.len()
        invariant
            src@.len() <= dst@.len(),
            h.0 == in_chart(p@),
            i <= src@.len(),
            r@.len() == 2 * i,
            forall|k: int|
                0 <= k < 2 * i ==> #[trigger] r@[k] == offset(h.0, src@[k / 2], dst@[k / 2])[k % 2],
        decreases src@.len() - i,
    {
        let off: Point = match h.apply(src[i][0], src[i][1]) {
            Some((u, v)) => [u - dst[i][0], v - dst[i][1]],
            None => [Double::from_bits(FAR_OFF), Double::from_bits(FAR_OFF)],
        };
        r.push(off[0]);
        r.push(off[1]);
        i = i + 1;
    }
    assert(r@ =~= offsets(in_chart(p@), src@, dst@));
    r
}

fn chart_increment(p: &Vec<Double>, j: usize) -> (d: Double)
    ensures
        d == increment_of(p@, j as int),
{
    Double::from_bits(INCREMENT) * parameter_at(p, j).abs().max(
        &Double::from_bits(LEAST_PARAMETER),
    )
}

fn refine_directly(h: &Mat3, src: &Vec<Point>, dst: &Vec<Point>) -> (out: Mat3)
    requires
        src@.len() <= dst@.len(),
    ensures
        out == refined_directly(*h, src@, dst@),
{
    let mut p: Vec<Double> = Vec::new();
    let mut i: usize = 0;
    while i < 8
        invariant
            i <= 8,
            p@.len() == i,
            forall|k: int| 0 <= k < i ==> #[trigger] p@[k] == h[k].per(h[8]),
        decreases 8 - i,
    {
        p.push(h[i] / h[8]);
        i = i + 1;
    }
    assert(p@ =~= chart_parameters(*h));
    let residuals = |p: &Vec<Double>| -> (r: Vec<Double>)
        ensures
            r@ == offsets_by(src@, dst@)(p@),
            r@.len() == 2 * src@.len(),
        { chart_offsets(p, src, dst) };
    let increment = |p: &Vec<Double>, j: usize| -> (d: Double)
        ensures
            d == increments_by()(p@, j as int),
        { chart_increment(p, j) };
    let ghost f = offsets_by(src@, dst@);
    let ghost h = increments_by();
    assert(least_squares::measures(&residuals, f));
    assert(least_squares::increments(&increment, h));
    let linearize = |p: &Vec<Double>| -> (l: NormalEquations)
        ensures
            l@ == least_squares::linear_of(offsets_by(src@, dst@), increments_by())(p@),
        { linearize_at(&residuals, &increment, p) };
    let step = |p: &Vec<Double>, l: &NormalEquations, damping: &Double| -> (next: Option<
        (Vec<Double>, Double),
    >)
        ensures
            lm::reached(next) == least_squares::stepping_of(offsets_by(src@, dst@))(
                p@,
                l@,
                *damping,
            ),
        { step_from(&residuals, p, l, damping) };
    let first: Double = cost(&chart_offsets(&p, src, dst));
    assert(lm::linearizes(&linearize, least_squares::linear_of(f, h)));
    assert(lm::steps(&step, least_squares::stepping_of(f)));
    let end: (Vec<Double>, Double) = descend(
        &linearize,
        &step,
        Convergence::CostBelow(Double::from_bits(SMALL_COST)),
        p,
        first,
        REFINE_ITERATIONS,
    );
    matrix_in_chart(&end.0)
}

fn points_about(pts: &Vec<Point>, origin: &Point) -> (out: Vec<Point>)
    ensures
        out@ == about(pts@, *origin),
{
    let mut out: Vec<Point> = Vec::new();
    let mut i: usize = 0;
    while i < pts.len()
        invariant
            i <= pts@.len(),
            out@.len() == i,
            forall|k: int|
                0 <= k < i ==> #[trigger] out@[k] == [
                    pts@[k][0] - origin[0],
                    pts@[k][1] - origin[1],
                ],
        decreases pts@.len() - i,
    {
        out.push([pts[i][0] - origin[0], pts[i][1] - origin[1]]);
        i = i + 1;
    }
    assert(out@ =~= about(pts@, *origin));
    out
}

/// Refine a homography by Levenberg-Marquardt on the offsets between where it
/// puts the source points and where they should be. A homography whose weight
/// at the source origin is too small to divide by is refined about another
/// origin, or left as it is where there is none. Targets beyond the last source point
/// are not looked at.
pub fn refine_lm(h: &Homography, src: &Vec<Point>, dst: &Vec<Point>) -> (refined: Homography)
    requires
        src@.len() <= dst@.len(),
        src@.len() < 0x20_0000_0000_0000,
    ensures
        refined.0 == refined_of(h.0, src@, dst@),
{
    match choose_chart(&h.0, src) {
        Chart::Direct => Homography(refine_directly(&h.0, src, dst)),
        Chart::Unrefined => Homography(h.0),
        Chart::Moved { origin, shifted } => {
            let inner: Mat3 = refine_directly(&shifted, &points_about(src, &origin), dst);
            let zero: Double = Double::from_bits(0);
            let one: Double = Double::from_bits(linalg::ONE);
            let back: Mat3 = [
                one,
                zero,
                origin[0].negate(),
                zero,
                one,
                origin[1].negate(),
                zero,
                zero,
                one,
            ];
            Homography(mat3_mul(&inner, &back))
        },
    }
}

/// Refinement does not make a homography fit worse: it leaves it as it is, or puts
/// the points nearer to their targets in the least-squares sense. The homography is
/// taken with its entries divided by the last one, which is where refinement starts.
pub proof fn law_refinement_never_fits_worse(h: Mat3, src: Seq<Point>, dst: Seq<Point>)
    ensures
        ({
            let start = in_chart(chart_parameters(h));
            let end = refined_directly(h, src, dst);
            end == start || least_squares::cost_of(offsets(end, src, dst)).less(
                least_squares::cost_of(offsets(start, src, dst)),
            )
        }),
{
    least_squares::law_descent_lowers_cost(
        offsets_by(src, dst),
        increments_by(),
        refine_rule(),
        chart_parameters(h),
        REFINE_ITERATIONS as nat,
    );
}

/// A homography whose last entry is 1 is left as it is, or is refined to one that puts
/// the points nearer to their targets: its own offsets, not those of a scaled one, get
/// smaller in the least-squares sense. This holds wherever the weight at the source
/// origin can be divided by, or no origin has one that can.
pub proof fn law_refined_fits_no_worse_than_given(h: Mat3, src: Seq<Point>, dst: Seq<Point>)
    requires
        h[8].bits == linalg::ONE,
        forall|i: int| 0 <= i < 9 ==> !(#[trigger] h[i]).nan(),
        !(homography::chart_of(h, src) is Moved),
    ensures
        ({
            let refined = refined_of(h, src, dst);
            refined == h || least_squares::cost_of(offsets(refined, src, dst)).less(
                least_squares::cost_of(offsets(h, src, dst)),
            )
        }),
{
    let p = chart_parameters(h);
    assert forall|i: int| 0 <= i < 8 implies #[trigger] p[i] == h[i] by {
        order::lemma_over_one(h[i]);
    }
    assert(in_chart(p) =~= h);
    law_refinement_never_fits_worse(h, src, dst);
}

} // verus!
