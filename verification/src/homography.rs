//! Planar homographies, and the estimation of a model from correspondences:
//! exact fit to four, RANSAC and inlier refit for more, then refinement.
use vstd::prelude::*;

use crate::double;
use crate::double::Double;
use crate::edge::Point;
use crate::linalg;
use crate::linalg::{mat3_inv, mat3_mul, mat3_scale, Mat3};
use crate::ransac;
use crate::ransac::{best_model, Consensus, Models};

verus! {

/// How small a projective weight, relative to the homography's scale, counts as
/// zero: the bits of 1e-12.
pub const AT_INFINITY: u64 = 0x3d71_9799_812d_ea11;

/// Least scale the weight is compared with: the bits of 1e-300.
pub const LEAST_SCALE: u64 = 0x01a5_6e1f_c2f8_f359;

/// How small a weight at the origin, relative to the homography's scale, makes
/// it useless to divide by: the bits of 1e-6.
pub const LEAST_WEIGHT: u64 = 0x3eb0_c6f7_a0b5_ed8d;

/// How large a weight, relative to the homography's scale, is healthy: the bits
/// of 1e-3.
pub const HEALTHY_WEIGHT: u64 = 0x3f50_624d_d2f1_a9fc;

/// A 3x3 planar homography, row-major.
#[derive(Clone, Copy, Debug)]
pub struct Homography(pub Mat3);

/// Projective weight of a point.
pub open spec fn weight(h: Mat3, x: Double, y: Double) -> Double {
    h[6] * x + h[7] * y + h[8]
}

/// The point lands on the plane at infinity.
pub open spec fn vanishes(h: Mat3, x: Double, y: Double) -> bool {
    weight(h, x, y).size().less(
        Double { bits: AT_INFINITY } * double::larger(
            linalg::scale_of(h),
            Double { bits: LEAST_SCALE },
        ),
    )
}

/// Where a homography takes a point.
pub open spec fn image_of(h: Mat3, x: Double, y: Double) -> Option<(Double, Double)> {
    if vanishes(h, x, y) {
        None
    } else {
        Some(
            (
                (h[0] * x + h[1] * y + h[2]).per(weight(h, x, y)),
                (h[3] * x + h[4] * y + h[5]).per(weight(h, x, y)),
            ),
        )
    }
}

impl Homography {
    /// Map a point; `None` if it lands on the plane at infinity.
    pub fn apply(&self, x: Double, y: Double) -> (p: Option<(Double, Double)>)
        ensures
            p == image_of(self.0, x, y),
    {
        let h: &Mat3 = &self.0;
        let w: Double = h[6] * x + h[7] * y + h[8];
        let floor: Double = Double::from_bits(AT_INFINITY) * mat3_scale(h).max(
            &Double::from_bits(LEAST_SCALE),
        );
        if w.abs().lt(&floor) {
            return None;
        }
        Some(((h[0] * x + h[1] * y + h[2]) / w, (h[3] * x + h[4] * y + h[5]) / w))
    }

    pub fn inverse(&self) -> (inv: Option<Homography>)
        ensures
            inv is Some <==> !linalg::is_singular(self.0),
            inv matches Some(h) ==> h.0 == linalg::adjugate_inverse(self.0),
    {
        match mat3_inv(&self.0) {
            Some(m) => Some(Homography(m)),
            None => None,
        }
    }
}

/// A matrix as a homography.
pub open spec fn as_homography(m: Option<Mat3>) -> Option<Homography> {
    match m {
        Some(m) => Some(Homography(m)),
        None => None,
    }
}

/// Result of a full estimation run: the refined model plus the residuals.
pub struct Estimate<M> {
    pub h: M,
    /// Per-correspondence error, in units of the target points.
    pub residuals: Vec<Double>,
    pub rms: Double,
    pub max: Double,
    /// Correspondences the model was fit on (all of them when there are 4).
    pub inliers: usize,
}

/// Sum of the squares of the first `n` values.
pub open spec fn square_sum(values: Seq<Double>, n: int) -> Double
    decreases n,
{
    if n <= 0 {
        Double { bits: 0 }
    } else {
        square_sum(values, n - 1) + values[n - 1] * values[n - 1]
    }
}

/// Root mean square.
pub open spec fn rms_of(values: Seq<Double>) -> Double {
    square_sum(values, values.len() as int).per(double::whole(values.len() as int)).root()
}

/// Largest of the first `n` values, at least 0.
pub open spec fn peak_of(values: Seq<Double>, n: int) -> Double
    decreases n,
{
    if n <= 0 {
        Double { bits: 0 }
    } else {
        double::larger(peak_of(values, n - 1), values[n - 1])
    }
}

/// Root mean square.
pub fn root_mean_square(values: &Vec<Double>) -> (rms: Double)
    requires
        values@.len() < 0x20_0000_0000_0000,
    ensures
        rms == rms_of(values@),
{
    let mut acc: Double = Double::from_bits(0);
    let mut i: usize = 0;
    while i < values.len()
        invariant
            i <= values@.len(),
            acc == square_sum(values@, i as int),
        decreases values@.len() - i,
    {
        acc = acc + values[i] * values[i];
        i = i + 1;
    }
    (acc / Double::from_count(values.len() as u64)).sqrt()
}

/// The estimate that `model` is, with these residuals.
pub open spec fn is_summary<M>(
    model: M,
    residuals: Seq<Double>,
    inliers: int,
    est: Estimate<M>,
) -> bool {
    &&& est.h == model
    &&& est.residuals@ == residuals
    &&& est.rms == rms_of(residuals)
    &&& est.max == peak_of(residuals, residuals.len() as int)
    &&& est.inliers == inliers
}

/// Sum up how well a model fits.
pub fn summarize<M>(h: M, residuals: Vec<Double>, inliers: usize) -> (est: Estimate<M>)
    requires
        residuals@.len() < 0x20_0000_0000_0000,
    ensures
        is_summary(h, residuals@, inliers as int, est),
{
    let rms: Double = root_mean_square(&residuals);
    let mut max: Double = Double::from_bits(0);
    let mut i: usize = 0;
    while i < residuals.len()
        invariant
            i <= residuals@.len(),
            max == peak_of(residuals@, i as int),
        decreases residuals@.len() - i,
    {
        max = max.max(&residuals[i]);
        i = i + 1;
    }
    Estimate { h, residuals, rms, max, inliers }
}

/// Indices of the inliers among the first `n` points, in order.
pub open spec fn indices_upto(mask: Seq<bool>, n: int) -> Seq<usize>
    decreases n,
{
    if n <= 0 {
        Seq::empty()
    } else if mask[n - 1] {
        indices_upto(mask, n - 1).push((n - 1) as usize)
    } else {
        indices_upto(mask, n - 1)
    }
}

/// Indices of the inliers, in order.
pub open spec fn indices_of(mask: Seq<bool>) -> Seq<usize> {
    indices_upto(mask, mask.len() as int)
}

/// Indices of the inliers, in order.
pub fn inlier_indices(mask: &Vec<bool>) -> (list: Vec<usize>)
    ensures
        list@ == indices_of(mask@),
{
    let mut list: Vec<usize> = Vec::new();
    let mut i: usize = 0;
    while i < mask.len()
        invariant
            i <= mask@.len(),
            list@ == indices_upto(mask@, i as int),
        decreases mask@.len() - i,
    {
        if mask[i] {
            list.push(i);
        }
        i = i + 1;
    }
    list
}

/// A list of at most `n` indices, each below `n`.
pub open spec fn is_selection(list: Seq<usize>, n: int) -> bool {
    list.len() <= n && forall|i: int| 0 <= i < list.len() ==> (#[trigger] list[i]) < n
}

/// `refit` and `refine` accept every list of `n` points.
pub open spec fn are_refiners<
    M,
    Refit: Fn(&Vec<usize>) -> Option<M>,
    Refine: Fn(&M, &Vec<usize>) -> M,
>(refit: &Refit, refine: &Refine, n: int) -> bool {
    &&& forall|list: &Vec<usize>|
        is_selection(list@, n) ==> #[trigger] call_requires(refit, (list,))
    &&& forall|m: &M, list: &Vec<usize>|
        is_selection(list@, n) ==> #[trigger] call_requires(refine, (m, list))
}

/// Refinement of models on a list of points, as functions.
#[verifier::reject_recursive_types(M)]
pub struct Refiners<M> {
    /// What is fitted to a list of points at once.
    pub refit: spec_fn(Seq<usize>) -> Option<M>,
    /// What a model is improved to on a list of points.
    pub refine: spec_fn(M, Seq<usize>) -> M,
}

/// `refine` computes `g`.
pub open spec fn is_refinement<M, Refine: Fn(&M, &Vec<usize>) -> M>(
    refine: &Refine,
    g: spec_fn(M, Seq<usize>) -> M,
) -> bool {
    forall|m: &M, list: &Vec<usize>, out: M| #[trigger]
        call_ensures(refine, (m, list), out) ==> out == g(*m, list@)
}

/// `refit` and `refine` compute what `q` says.
pub open spec fn are_refined<
    M,
    Refit: Fn(&Vec<usize>) -> Option<M>,
    Refine: Fn(&M, &Vec<usize>) -> M,
>(refit: &Refit, refine: &Refine, q: Refiners<M>) -> bool {
    &&& forall|list: &Vec<usize>, m: Option<M>| #[trigger]
        call_ensures(refit, (list,), m) ==> m == (q.refit)(list@)
    &&& is_refinement(refine, q.refine)
}

/// `est` sums up what `start` is refined to on the points `idx`.
pub open spec fn is_refined<M>(
    p: Models<M>,
    q: Refiners<M>,
    start: M,
    idx: Seq<usize>,
    inliers: int,
    est: Estimate<M>,
) -> bool {
    let model = (q.refine)(start, idx);
    is_summary(model, (p.errors)(model), inliers, est)
}

/// `est` comes from round `r`, the first RANSAC round with the most inliers: the
/// inliers of its model are fit at once, or that model is kept where they are
/// degenerate, then refined on.
pub open spec fn comes_from<M>(
    p: Models<M>,
    q: Refiners<M>,
    limit: Double,
    n: int,
    r: nat,
    est: Estimate<M>,
) -> bool {
    &&& ransac::is_best_round(p, limit, n, ransac::ROUNDS as nat, r)
    &&& (p.fit)(ransac::round_sample(n, r)) matches Some(sampled) && {
        let idx = indices_of(ransac::mask_of(p, limit, sampled));
        let start = match (q.refit)(idx) {
            Some(m) => m,
            None => sampled,
        };
        is_refined(p, q, start, idx, ransac::round_count(p, limit, n, r), est)
    }
}

/// What four correspondences give: the exact fit, refined.
pub open spec fn is_exact<M>(p: Models<M>, q: Refiners<M>, est: Option<Estimate<M>>) -> bool {
    match (p.fit)(ransac::four(0, 1, 2, 3)) {
        None => est is None,
        Some(m) => est is Some && is_refined(
            p,
            q,
            m,
            seq![0usize, 1usize, 2usize, 3usize],
            4,
            est->0,
        ),
    }
}

/// What more than four correspondences give: the model of the first RANSAC
/// round with the most inliers, refined, if any round has enough of them.
pub open spec fn is_robust<M>(
    p: Models<M>,
    q: Refiners<M>,
    limit: Double,
    n: int,
    est: Option<Estimate<M>>,
) -> bool {
    match est {
        None => ransac::lacks_consensus(p, limit, n),
        Some(e) => e.inliers >= ransac::SAMPLE && exists|r: nat| #[trigger]
            comes_from(p, q, limit, n, r, e),
    }
}

/// What correspondences between `n` source points and `n_dst` target points give.
pub open spec fn is_estimated<M>(
    p: Models<M>,
    q: Refiners<M>,
    limit: Double,
    n: int,
    n_dst: int,
    est: Option<Estimate<M>>,
) -> bool {
    if n < 4 || n_dst != n {
        est is None
    } else if n == 4 {
        is_exact(p, q, est)
    } else {
        is_robust(p, q, limit, n, est)
    }
}

/// Full estimation pipeline over `n` source and `n_dst` target points: exact
/// fit for 4 points, RANSAC and inlier refit for more, then refinement. `fit`
/// fits a model to four points, `refit` to a list of them, `errors` gives how
/// far each target point is from where the model puts it, `refine` improves a
/// model on a list of points. A point is an inlier when its error does not
/// exceed `limit`.
pub fn estimate_with<
    M,
    Fit: Fn(usize, usize, usize, usize) -> Option<M>,
    Errors: Fn(&M) -> Vec<Double>,
    Refit: Fn(&Vec<usize>) -> Option<M>,
    Refine: Fn(&M, &Vec<usize>) -> M,
>(
    n: usize,
    n_dst: usize,
    fit: &Fit,
    errors: &Errors,
    refit: &Refit,
    refine: &Refine,
    limit: Double,
) -> (est: Option<Estimate<M>>)
    requires
        n < 0x20_0000_0000_0000,
        ransac::are_models::<M, Fit, Errors>(fit, errors, n as int),
        are_refiners(refit, refine, n as int),
    ensures
        n < 4 || n_dst != n ==> est is None,
        forall|p: Models<M>, q: Refiners<M>| #[trigger]
            ransac::are_modelled(fit, errors, p) && #[trigger] are_refined(refit, refine, q)
                ==> is_estimated(p, q, limit, n as int, n_dst as int, est),
{
    if n < 4 || n_dst != n {
        None
    } else if n == 4 {
        estimate_exactly(n, fit, errors, refit, refine)
    } else {
        estimate_robustly(n, fit, errors, refit, refine, limit)
    }
}

fn estimate_exactly<
    M,
    Fit: Fn(usize, usize, usize, usize) -> Option<M>,
    Errors: Fn(&M) -> Vec<Double>,
    Refit: Fn(&Vec<usize>) -> Option<M>,
    Refine: Fn(&M, &Vec<usize>) -> M,
>(n: usize, fit: &Fit, errors: &Errors, refit: &Refit, refine: &Refine) -> (est: Option<
    Estimate<M>,
>)
    requires
        n == 4,
        ransac::are_models::<M, Fit, Errors>(fit, errors, n as int),
        are_refiners(refit, refine, n as int),
    ensures
        forall|p: Models<M>, q: Refiners<M>| #[trigger]
            ransac::are_modelled(fit, errors, p) && #[trigger] are_refined(refit, refine, q)
                ==> is_exact(p, q, est),
{
    let fitted: Option<M> = fit(0, 1, 2, 3);
    let ghost found = fitted;
    proof {
        assert(call_ensures(fit, (0usize, 1usize, 2usize, 3usize), found));
    }
    match fitted {
        None => None,
        Some(m) => {
            let list: Vec<usize> = vec![0usize, 1usize, 2usize, 3usize];
            assert(list@ =~= seq![0usize, 1usize, 2usize, 3usize]);
            let est: Estimate<M> = refined(errors, refine, &m, &list, 4, n);
            proof {
                assert forall|p: Models<M>, q: Refiners<M>| #[trigger]
                    ransac::are_modelled(fit, errors, p) && #[trigger] are_refined(
                    refit,
                    refine,
                    q,
                ) implies is_exact(p, q, Some(est)) by {
                    assert(ransac::are_errors(errors, p.errors));
                    assert(is_refinement(refine, q.refine));
                }
            }
            Some(est)
        },
    }
}

fn estimate_robustly<
    M,
    Fit: Fn(usize, usize, usize, usize) -> Option<M>,
    Errors: Fn(&M) -> Vec<Double>,
    Refit: Fn(&Vec<usize>) -> Option<M>,
    Refine: Fn(&M, &Vec<usize>) -> M,
>(
    n: usize,
    fit: &Fit,
    errors: &Errors,
    refit: &Refit,
    refine: &Refine,
    limit: Double,
) -> (est: Option<Estimate<M>>)
    requires
        4 < n < 0x20_0000_0000_0000,
        ransac::are_models::<M, Fit, Errors>(fit, errors, n as int),
        are_refiners(refit, refine, n as int),
    ensures
        forall|p: Models<M>, q: Refiners<M>| #[trigger]
            ransac::are_modelled(fit, errors, p) && #[trigger] are_refined(refit, refine, q)
                ==> is_robust(p, q, limit, n as int, est),
{
    let consensus: Consensus<M> = match best_model(n, fit, errors, limit) {
        None => {
            return None;
        },
        Some(c) => c,
    };
    let list: Vec<usize> = inlier_indices(&consensus.mask);
    proof {
        lemma_indices_select(consensus.mask@, n as int);
    }
    let ghost agreed = consensus;
    let again: Option<M> = refit(&list);
    let ghost fitted = again;
    let count: usize = consensus.count;
    let start: M = match again {
        Some(m) => m,
        None => consensus.model,
    };
    let est: Estimate<M> = refined(errors, refine, &start, &list, count, n);
    proof {
        assert(call_ensures(refit, (&list,), fitted));
        assert forall|p: Models<M>, q: Refiners<M>| #[trigger]
            ransac::are_modelled(fit, errors, p) && #[trigger] are_refined(
            refit,
            refine,
            q,
        ) implies is_robust(p, q, limit, n as int, Some(est)) by {
            assert(ransac::are_errors(errors, p.errors));
            assert(is_refinement(refine, q.refine));
            lemma_robust(p, q, limit, n as int, agreed, start, est);
        }
    }
    Some(est)
}

proof fn lemma_robust<M>(
    p: Models<M>,
    q: Refiners<M>,
    limit: Double,
    n: int,
    c: Consensus<M>,
    start: M,
    est: Estimate<M>,
)
    requires
        ransac::is_best(p, limit, n, c),
        c.count >= ransac::SAMPLE,
        start == (match (q.refit)(indices_of(c.mask@)) {
            Some(m) => m,
            None => c.model,
        }),
        is_refined(p, q, start, indices_of(c.mask@), c.count as int, est),
    ensures
        is_robust(p, q, limit, n, Some(est)),
{
    let r = choose|r: nat| #[trigger]
        ransac::is_best_round(p, limit, n, ransac::ROUNDS as nat, r) && ransac::is_consensus(
            p,
            limit,
            n,
            r,
            c,
        );
    assert(comes_from(p, q, limit, n, r, est));
}

proof fn lemma_indices_select(mask: Seq<bool>, k: int)
    requires
        0 <= k <= mask.len() <= usize::MAX,
    ensures
        is_selection(indices_upto(mask, k), k),
    decreases k,
{
    if k > 0 {
        lemma_indices_select(mask, k - 1);
    }
}

fn refined<M, Errors: Fn(&M) -> Vec<Double>, Refine: Fn(&M, &Vec<usize>) -> M>(
    errors: &Errors,
    refine: &Refine,
    start: &M,
    list: &Vec<usize>,
    inliers: usize,
    n: usize,
) -> (est: Estimate<M>)
    requires
        n < 0x20_0000_0000_0000,
        call_requires(refine, (start, list)),
        forall|m: &M| call_requires(errors, (m,)),
        forall|m: &M, x: Vec<Double>| #[trigger] call_ensures(errors, (m,), x) ==> x@.len() == n,
    ensures
        est.inliers == inliers,
        forall|f: spec_fn(M) -> Seq<Double>, g: spec_fn(M, Seq<usize>) -> M| #[trigger]
            ransac::are_errors(errors, f) && #[trigger] is_refinement(refine, g) ==> is_summary(
                g(*start, list@),
                f(g(*start, list@)),
                inliers as int,
                est,
            ),
{
    let model: M = refine(start, list);
    let residuals: Vec<Double> = errors(&model);
    let ghost last = model;
    let ghost off = residuals;
    proof {
        assert(call_ensures(refine, (start, list), last));
        assert(call_ensures(errors, (&last,), off));
    }
    summarize(model, residuals, inliers)
}

/// How a homography is refined: as it is, after its source frame is moved so
/// that `origin` becomes the origin, or not at all.
#[derive(Clone, Copy, Debug)]
pub enum Chart {
    Direct,
    Moved { origin: Point, shifted: Mat3 },
    Unrefined,
}

/// The weight at the source origin, h[8], is too small to divide by. It is the
/// projective weight of the origin, which general chained homographies can put
/// near the vanishing line.
pub open spec fn is_degenerate(h: Mat3) -> bool {
    h[8].size().less(
        Double { bits: LEAST_WEIGHT } * double::larger(
            linalg::scale_of(h),
            Double { bits: LEAST_SCALE },
        ),
    )
}

/// A point whose weight is healthy.
pub open spec fn is_healthy(h: Mat3, p: Point) -> bool {
    (Double { bits: HEALTHY_WEIGHT } * linalg::scale_of(h)).less(weight(h, p[0], p[1]).size())
}

/// Sum over the first `n` points of one coordinate's share of the mean.
pub open spec fn mean_upto(pts: Seq<Point>, axis: int, n: int) -> Double
    decreases n,
{
    if n <= 0 {
        Double { bits: 0 }
    } else {
        mean_upto(pts, axis, n - 1) + pts[n - 1][axis].per(double::whole(pts.len() as int))
    }
}

/// Centroid of points.
pub open spec fn centroid_of(pts: Seq<Point>) -> Point {
    [mean_upto(pts, 0, pts.len() as int), mean_upto(pts, 1, pts.len() as int)]
}

/// First point from `k` on whose weight is healthy.
pub open spec fn healthy_from(h: Mat3, pts: Seq<Point>, k: int) -> Option<Point>
    decreases pts.len() - k,
{
    if k >= pts.len() {
        None
    } else if is_healthy(h, pts[k]) {
        Some(pts[k])
    } else {
        healthy_from(h, pts, k + 1)
    }
}

/// Where the origin moves to: the centroid of the source points, else the first
/// of them with a healthy weight.
pub open spec fn new_origin(h: Mat3, pts: Seq<Point>) -> Option<Point> {
    if is_healthy(h, centroid_of(pts)) {
        Some(centroid_of(pts))
    } else {
        healthy_from(h, pts, 0)
    }
}

/// The translation that takes the origin to `p`.
pub open spec fn translation(p: Point) -> Mat3 {
    let zero = Double { bits: 0 };
    let one = Double { bits: linalg::ONE };
    [one, zero, p[0], zero, one, p[1], zero, zero, one]
}

/// The chart that a homography is refined in.
pub open spec fn chart_of(h: Mat3, pts: Seq<Point>) -> Chart {
    if !is_degenerate(h) {
        Chart::Direct
    } else {
        match new_origin(h, pts) {
            None => Chart::Unrefined,
            Some(origin) => {
                let shifted = linalg::mat_product(h, translation(origin));
                if is_degenerate(shifted) {
                    Chart::Unrefined
                } else {
                    Chart::Moved { origin, shifted }
                }
            },
        }
    }
}

fn degenerate(h: &Mat3) -> (r: bool)
    ensures
        r == is_degenerate(*h),
{
    h[8].abs().lt(
        &(Double::from_bits(LEAST_WEIGHT) * mat3_scale(h).max(&Double::from_bits(LEAST_SCALE))),
    )
}

fn healthy(h: &Mat3, scale: &Double, p: &Point) -> (r: bool)
    requires
        *scale == linalg::scale_of(*h),
    ensures
        r == is_healthy(*h, *p),
{
    (Double::from_bits(HEALTHY_WEIGHT) * *scale).lt(&(h[6] * p[0] + h[7] * p[1] + h[8]).abs())
}

fn mean_coordinate(pts: &Vec<Point>, axis: usize) -> (m: Double)
    requires
        axis < 2,
        pts@.len() < 0x20_0000_0000_0000,
    ensures
        m == mean_upto(pts@, axis as int, pts@.len() as int),
{
    let n: Double = Double::from_count(pts.len() as u64);
    let mut m: Double = Double::from_bits(0);
    let mut i: usize = 0;
    while i < pts.len()
        invariant
            axis < 2,
            n == double::whole(pts@.len() as int),
            i <= pts@.len(),
            m == mean_upto(pts@, axis as int, i as int),
        decreases pts@.len() - i,
    {
        m = m + pts[i][axis] / n;
        i = i + 1;
    }
    m
}

/// Choose the chart that a homography is refined in on these source points.
/// Where the chart h[8] = 1 is not valid, the source frame is re-anchored at a
/// point with a healthy weight.
pub fn choose_chart(h: &Mat3, pts: &Vec<Point>) -> (chart: Chart)
    requires
        pts@.len() < 0x20_0000_0000_0000,
    ensures
        chart == chart_of(*h, pts@),
{
    if !degenerate(h) {
        return Chart::Direct;
    }
    let scale: Double = mat3_scale(h);
    let centroid: Point = [mean_coordinate(pts, 0), mean_coordinate(pts, 1)];
    let mut origin: Option<Point> = None;
    if healthy(h, &scale, &centroid) {
        origin = Some(centroid);
    } else {
        let mut k: usize = 0;
        while k < pts.len() && origin.is_none()
            invariant
                scale == linalg::scale_of(*h),
                k <= pts@.len(),
                origin is None ==> healthy_from(*h, pts@, 0) == healthy_from(*h, pts@, k as int),
                origin is Some ==> healthy_from(*h, pts@, 0) == origin,
            decreases pts@.len() - k,
        {
            if healthy(h, &scale, &pts[k]) {
                origin = Some(pts[k]);
            }
            k = k + 1;
        }
    }
    match origin {
        None => Chart::Unrefined,
        Some(p) => {
            let zero: Double = Double::from_bits(0);
            let one: Double = Double::from_bits(linalg::ONE);
            let t: Mat3 = [one, zero, p[0], zero, one, p[1], zero, zero, one];
            let shifted: Mat3 = mat3_mul(h, &t);
            if degenerate(&shifted) {
                Chart::Unrefined
            } else {
                Chart::Moved { origin: p, shifted }
            }
        },
    }
}

/// A homography is only ever refined in a chart whose weight can be divided by.
pub proof fn law_chart_is_valid(h: Mat3, pts: Seq<Point>)
    ensures
        chart_of(h, pts) is Direct ==> !is_degenerate(h),
        chart_of(h, pts) matches Chart::Moved { origin, shifted } ==> !is_degenerate(shifted)
            && shifted == linalg::mat_product(h, translation(origin)) && is_healthy(h, origin),
{
    lemma_healthy_from(h, pts, 0);
}

proof fn lemma_healthy_from(h: Mat3, pts: Seq<Point>, k: int)
    ensures
        healthy_from(h, pts, k) matches Some(p) ==> is_healthy(h, p),
    decreases pts.len() - k,
{
    if k < pts.len() && !is_healthy(h, pts[k]) {
        lemma_healthy_from(h, pts, k + 1);
    }
}

} // verus!
