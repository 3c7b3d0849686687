//! Self-calibrated intrinsics: focal starting points, the multi-start search for
//! the best joint fit, and the conditioning gates that decide what may be
//! claimed of it.
//!
//! Self-calibration from a short, barely rotating, near-fronto-parallel chain
//! is ill-conditioned, and a confidently wrong focal is worse than no focal.
//! Nothing is claimed unless the curvature of the fit bounds the parameters.
//! The two gates fail independently: k1 is observable from radial bending
//! alone, so a pan with little wobble pins k1 while it leaves the focal open.
use vstd::prelude::*;

use crate::distortion;
use crate::double;
use crate::double::Double;
use crate::linalg::Mat3;
use crate::lm;
use crate::lm::{descend, Convergence};

verus! {

/// Fewest keyframes that self-calibration is attempted with.
pub const MIN_CALIB_KEYFRAMES: usize = 4;

/// Largest relative 1-sigma uncertainty of a claimed focal: the bits of 0.10.
pub const MAX_FOCAL_REL_SIGMA: u64 = 0x3fb9_9999_9999_999a;

/// Largest 1-sigma uncertainty of a claimed k1: the bits of 0.02.
pub const MAX_K1_SIGMA: u64 = 0x3f94_7ae1_47ae_147b;

/// Smallest plausible focal in units of the larger frame side: the bits of 0.4.
pub const MIN_FOCAL_FRAC: u64 = 0x3fd9_9999_9999_999a;

/// Largest plausible focal in units of the larger frame side: the bits of 8.0.
pub const MAX_FOCAL_FRAC: u64 = 0x4020_0000_0000_0000;

/// Largest magnitude of a phone lens's k1: the bits of 0.35.
pub const MAX_ABS_K1: u64 = 0x3fd6_6666_6666_6666;

/// Nominal focals in units of the larger frame side: the bits of 0.7.
pub const SHORT_FOCAL: u64 = 0x3fe6_6666_6666_6666;

/// The bits of 1.05.
pub const NORMAL_FOCAL: u64 = 0x3ff0_cccc_cccc_cccd;

/// The bits of 1.6.
pub const LONG_FOCAL: u64 = 0x3ff9_9999_9999_999a;

/// Starting points closer than this fraction count as one: the bits of 0.10.
pub const START_SEPARATION: u64 = 0x3fb9_9999_9999_999a;

/// Observations needed beyond the number of parameters.
pub const SPARE_OBSERVATIONS: usize = 20;

pub const LM_ITERATIONS: usize = 120;

/// Relative decrease of the cost that ends a descent: the bits of 1e-10.
pub const LM_DECREASE: u64 = 0x3ddb_7cdf_d9d7_bdbb;

/// Smallest norm of a usable homography: the bits of 1e-300.
pub const LEAST_NORM: u64 = 0x01a5_6e1f_c2f8_f359;

/// Smallest sum of squares that the focal can be read from: the bits of 1e-30.
pub const LEAST_SQUARES: u64 = 0x39b4_484b_feeb_c2a0;

/// The bits of 1.0.
pub const ONE: u64 = 0x3ff0_0000_0000_0000;

/// A self-calibration that passed every conditioning gate.
#[derive(Clone, Copy, Debug)]
pub struct SelfCalibration {
    pub focal_px: Double,
    pub k1: Double,
    /// 1-sigma uncertainties from the curvature at the fit.
    pub focal_sigma_px: Double,
    pub k1_sigma: Double,
    /// Weighted reprojection RMS (px) before and after the joint refinement.
    pub rms_before_px: Double,
    pub rms_after_px: Double,
}

/// What the conditioning gates allow to be claimed.
pub enum CalibOutcome {
    /// Both gates passed: full calibration plus the chain of the fit.
    Full(SelfCalibration, Vec<Mat3>),
    /// k1 passed its gate but the focal did not: no focal is ever reported. The
    /// chain is still used: an unidentifiable focal means that the fitted
    /// homographies are insensitive to it.
    DistortionOnly { k1: Double, chain: Vec<Mat3> },
    /// Nothing provable: stay pinhole with the wider uncalibrated bound.
    Refused,
}

/// The verdict of the gates, without the chain.
#[derive(Clone, Copy, Debug)]
pub enum Verdict {
    Full(SelfCalibration),
    DistortionOnly,
    Refused,
}

/// Self-calibration is attempted: the chain is long enough, Marker A was seen,
/// and there is a set of matches for every link.
pub open spec fn is_eligible(keyframes: int, marker_a: int, links: int) -> bool {
    keyframes >= MIN_CALIB_KEYFRAMES && marker_a > 0 && links == keyframes - 1
}

/// Is self-calibration attempted?
pub fn eligible(keyframes: usize, marker_a: usize, links: usize) -> (ok: bool)
    ensures
        ok == is_eligible(keyframes as int, marker_a as int, links as int),
{
    keyframes >= MIN_CALIB_KEYFRAMES && marker_a > 0 && links == keyframes - 1
}

/// A homography with the principal point moved to the origin.
pub open spec fn centred(w: Mat3, cx: Double, cy: Double) -> Mat3 {
    [
        w[0] - cx * w[6],
        w[1] - cx * w[7],
        w[2] - cx * w[8],
        w[3] - cy * w[6],
        w[4] - cy * w[7],
        w[5] - cy * w[8],
        w[6],
        w[7],
        w[8],
    ]
}

/// Sum of the squares of the first `n` entries.
pub open spec fn entry_squares(h: Mat3, n: int) -> Double
    decreases n,
{
    if n <= 0 {
        Double { bits: 0 }
    } else {
        entry_squares(h, n - 1) + h[n - 1] * h[n - 1]
    }
}

/// The two equations u a + v = 0 that a centred homography of norm `k` puts on
/// a = 1/f^2: orthogonality of the first two columns, and their equal length.
pub open spec fn focal_equations(h: Mat3, k: Double) -> ((Double, Double), (Double, Double)) {
    let (h11, h12) = (h[0].per(k), h[1].per(k));
    let (h21, h22) = (h[3].per(k), h[4].per(k));
    let (h31, h32) = (h[6].per(k), h[7].per(k));
    (
        (h11 * h12 + h21 * h22, h31 * h32),
        (h11 * h11 + h21 * h21 - h12 * h12 - h22 * h22, h31 * h31 - h32 * h32),
    )
}

/// Least-squares sums (of u u, of u v) over the first `n` homographies.
pub open spec fn focal_sums(chain: Seq<Mat3>, cx: Double, cy: Double, n: int) -> (Double, Double)
    decreases n,
{
    if n <= 0 {
        (Double { bits: 0 }, Double { bits: 0 })
    } else {
        let (uu, uv) = focal_sums(chain, cx, cy, n - 1);
        let h = centred(chain[n - 1], cx, cy);
        let norm = entry_squares(h, 9).root();
        let ((u1, v1), (u2, v2)) = focal_equations(h, norm);
        if norm.less(Double { bits: LEAST_NORM }) {
            (uu, uv)
        } else {
            (uu + u1 * u1 + u2 * u2, uv + u1 * v1 + u2 * v2)
        }
    }
}

/// Closed-form focal of a chain, if its equations put 1/f^2 on the right side of
/// zero (those of near-fronto-parallel chains do not).
pub open spec fn initial_focal(chain: Seq<Mat3>, cx: Double, cy: Double) -> Option<Double> {
    let (uu, uv) = focal_sums(chain, cx, cy, chain.len() as int);
    let a = uv.opposite().per(uu);
    if uu.less(Double { bits: LEAST_SQUARES }) || !(a.finite() && (Double { bits: 0 }).less(a)) {
        None
    } else {
        Some(Double { bits: ONE }.per(a.root()))
    }
}

fn centre(w: &Mat3, cx: &Double, cy: &Double) -> (h: Mat3)
    ensures
        h == centred(*w, *cx, *cy),
{
    [
        w[0] - *cx * w[6],
        w[1] - *cx * w[7],
        w[2] - *cx * w[8],
        w[3] - *cy * w[6],
        w[4] - *cy * w[7],
        w[5] - *cy * w[8],
        w[6],
        w[7],
        w[8],
    ]
}

fn norm_of(h: &Mat3) -> (norm: Double)
    ensures
        norm == entry_squares(*h, 9).root(),
{
    let mut acc: Double = Double::from_bits(0);
    let mut i: usize = 0;
    while i < 9
        invariant
            i <= 9,
            acc == entry_squares(*h, i as int),
        decreases 9 - i,
    {
        acc = acc + h[i] * h[i];
        i = i + 1;
    }
    acc.sqrt()
}

/// Closed-form initial focal from the chained wall->px homographies
/// (plane-based calibration); each gives two linear equations in 1/f^2, solved
/// by least squares over the chain.
pub fn init_focal(chain: &Vec<Mat3>, cx: &Double, cy: &Double) -> (f: Option<Double>)
    ensures
        f == initial_focal(chain@, *cx, *cy),
{
    let mut uu: Double = Double::from_bits(0);
    let mut uv: Double = Double::from_bits(0);
    let mut i: usize = 0;
    while i < chain.len()
        invariant
            i <= chain@.len(),
            (uu, uv) == focal_sums(chain@, *cx, *cy, i as int),
        decreases chain@.len() - i,
    {
        let h: Mat3 = centre(&chain[i], cx, cy);
        let norm: Double = norm_of(&h);
        if !norm.lt(&Double::from_bits(LEAST_NORM)) {
            let h11: Double = h[0] / norm;
            let h12: Double = h[1] / norm;
            let h21: Double = h[3] / norm;
            let h22: Double = h[4] / norm;
            let h31: Double = h[6] / norm;
            let h32: Double = h[7] / norm;
            let u1: Double = h11 * h12 + h21 * h22;
            let v1: Double = h31 * h32;
            let u2: Double = h11 * h11 + h21 * h21 - h12 * h12 - h22 * h22;
            let v2: Double = h31 * h31 - h32 * h32;
            uu = uu + u1 * u1 + u2 * u2;
            uv = uv + u1 * v1 + u2 * v2;
        }
        i = i + 1;
    }
    if uu.lt(&Double::from_bits(LEAST_SQUARES)) {
        return None;
    }
    let a: Double = uv.negate() / uu;
    if !(a.is_finite() && Double::from_bits(0).lt(&a)) {
        return None;
    }
    Some(Double::from_bits(ONE) / a.sqrt())
}

/// A focal is plausible for frames whose larger side is `dim`.
pub open spec fn is_plausible_focal(f: Double, dim: Double) -> bool {
    (Double { bits: MIN_FOCAL_FRAC } * dim).at_most(f) && f.at_most(
        Double { bits: MAX_FOCAL_FRAC } * dim,
    )
}

fn plausible_focal(f: &Double, dim: &Double) -> (ok: bool)
    ensures
        ok == is_plausible_focal(*f, *dim),
{
    (Double::from_bits(MIN_FOCAL_FRAC) * *dim).le(f) && f.le(
        &(Double::from_bits(MAX_FOCAL_FRAC) * *dim),
    )
}

/// A start is far enough from another.
pub open spec fn is_apart(f: Double, cand: Double) -> bool {
    Double { bits: START_SEPARATION }.less((f - cand).size().per(cand))
}

/// A list of starts with a nominal one added, unless it holds one close to it.
pub open spec fn with_start(starts: Seq<Double>, cand: Double) -> Seq<Double> {
    if forall|i: int| 0 <= i < starts.len() ==> is_apart(#[trigger] starts[i], cand) {
        starts.push(cand)
    } else {
        starts
    }
}

/// Focal starting points: the closed-form estimate when it is plausible, then
/// the nominal ones that are not close to an earlier one.
pub open spec fn starts_for(init: Option<Double>, dim: Double) -> Seq<Double> {
    let first = match init {
        Some(f) if is_plausible_focal(f, dim) => seq![f],
        _ => Seq::empty(),
    };
    with_start(
        with_start(
            with_start(first, Double { bits: SHORT_FOCAL } * dim),
            Double { bits: NORMAL_FOCAL } * dim,
        ),
        Double { bits: LONG_FOCAL } * dim,
    )
}

fn add_start(starts: &mut Vec<Double>, cand: Double)
    ensures
        final(starts)@ == with_start(old(starts)@, cand),
{
    let mut i: usize = 0;
    while i < starts.len()
        invariant
            starts@ == old(starts)@,
            i <= starts@.len(),
            forall|k: int| 0 <= k < i ==> is_apart(#[trigger] starts@[k], cand),
        decreases starts@.len() - i,
    {
        if !Double::from_bits(START_SEPARATION).lt(&((starts[i] - cand).abs() / cand)) {
            assert(!is_apart(starts@[i as int], cand));
            return ;
        }
        i = i + 1;
    }
    starts.push(cand);
}

/// Focal starting points: the closed-form plane-calibration estimate when it
/// lands in range, plus nominal phone-ish brackets. The cost along focal is a
/// long shallow valley, so a single bad start can settle in a wrong basin.
pub fn focal_starts(init: Option<Double>, dim: &Double) -> (starts: Vec<Double>)
    ensures
        starts@ == starts_for(init, *dim),
{
    let mut starts: Vec<Double> = Vec::new();
    if let Some(f) = init {
        if plausible_focal(&f, dim) {
            starts.push(f);
        }
    }
    proof {
        assert(starts@ =~= (match init {
            Some(f) if is_plausible_focal(f, *dim) => seq![f],
            _ => Seq::empty(),
        }));
    }
    add_start(&mut starts, Double::from_bits(SHORT_FOCAL) * *dim);
    add_start(&mut starts, Double::from_bits(NORMAL_FOCAL) * *dim);
    add_start(&mut starts, Double::from_bits(LONG_FOCAL) * *dim);
    starts
}

/// A joint fit: the state it ended in, with the cost there.
pub struct Fit<S> {
    pub state: S,
    pub cost: Double,
    /// RMS residual of the start that led to it.
    pub rms_before: Double,
    pub observations: usize,
}

/// Outcome of the search over all starts.
pub enum Search<S> {
    /// A start has too few observations to also certify a result.
    TooFewObservations,
    /// The cheapest fit, if any start could be set up.
    Best(Option<Fit<S>>),
}

/// A joint refinement, as functions of what a state holds.
#[verifier::reject_recursive_types(S)]
#[verifier::reject_recursive_types(L)]
pub struct Problem<S, L> {
    /// The state that a focal starts with, if it can be set up.
    pub start: spec_fn(Double) -> Option<S>,
    /// Number of observations and cost of a state.
    pub measure: spec_fn(S) -> (usize, Double),
    pub linear: lm::Linear<S, L>,
    pub stepping: lm::Stepping<S, L>,
    /// Focal and k1 of a state.
    pub lens: spec_fn(S) -> (Double, Double),
    /// Their entries of the inverse curvature.
    pub bend: spec_fn(S) -> (Option<Double>, Option<Double>),
    /// The chain of a state.
    pub chain: spec_fn(S) -> Seq<Mat3>,
}

/// What an optional state holds.
pub open spec fn begun<S: View>(s: Option<S>) -> Option<S::V> {
    match s {
        Some(s) => Some(s@),
        None => None,
    }
}

/// `init`, `measure`, `linearize` and `step` compute what `p` says.
pub open spec fn is_posed<
    S: View,
    L: View,
    Init: Fn(Double) -> Option<S>,
    Measure: Fn(&S) -> (usize, Double),
    Linearize: Fn(&S) -> L,
    Step: Fn(&S, &L, &Double) -> Option<(S, Double)>,
>(
    init: &Init,
    measure: &Measure,
    linearize: &Linearize,
    step: &Step,
    p: Problem<S::V, L::V>,
) -> bool {
    &&& forall|f: Double, s: Option<S>| #[trigger]
        call_ensures(init, (f,), s) ==> begun(s) == (p.start)(f)
    &&& forall|s: &S, m: (usize, Double)| #[trigger]
        call_ensures(measure, (s,), m) ==> m == (p.measure)(s@)
    &&& lm::linearizes(linearize, p.linear)
    &&& lm::steps(step, p.stepping)
}

/// `init` and `measure` answer every question, and no state has more observations
/// than a double counts exactly.
pub open spec fn are_starters<
    S,
    Init: Fn(Double) -> Option<S>,
    Measure: Fn(&S) -> (usize, Double),
>(init: &Init, measure: &Measure) -> bool {
    &&& forall|f: Double| call_requires(init, (f,))
    &&& forall|s: &S| call_requires(measure, (s,))
    &&& forall|s: &S, x: (usize, Double)| #[trigger] call_ensures(measure, (s,), x) ==> x.0
        < 0x20_0000_0000_0000
}

/// Root mean square of residuals with this cost.
pub open spec fn rms_for(cost: Double, observations: int) -> Double {
    cost.per(double::whole(observations)).root()
}

/// The rule that ends a descent.
pub open spec fn calib_rule() -> Convergence {
    Convergence::DecreaseBelow(Double { bits: LM_DECREASE })
}

/// The search with one more start: the cheaper of the best fit so far and the
/// fit that the start leads to.
pub open spec fn searched_with<S, L>(
    p: Problem<S, L>,
    parameters: int,
    best: Option<Fit<S>>,
    start: S,
) -> Search<S> {
    let (m, cost) = (p.measure)(start);
    let (end, low) = lm::descent(
        p.linear,
        p.stepping,
        calib_rule(),
        start,
        cost,
        LM_ITERATIONS as nat,
    );
    let fit = Fit {
        state: end,
        cost: low,
        rms_before: rms_for(cost, m as int),
        observations: m,
    };
    if m < parameters + SPARE_OBSERVATIONS {
        Search::TooFewObservations
    } else {
        match best {
            Some(b) if !low.less(b.cost) => Search::Best(Some(b)),
            _ => Search::Best(Some(fit)),
        }
    }
}

/// The search over the first `n` starts.
pub open spec fn searched<S, L>(
    p: Problem<S, L>,
    parameters: int,
    starts: Seq<Double>,
    n: int,
) -> Search<S>
    decreases n,
{
    if n <= 0 {
        Search::Best(None)
    } else {
        match searched(p, parameters, starts, n - 1) {
            Search::TooFewObservations => Search::TooFewObservations,
            Search::Best(best) => match (p.start)(starts[n - 1]) {
                None => Search::Best(best),
                Some(start) => searched_with(p, parameters, best, start),
            },
        }
    }
}

/// What a fit holds.
pub open spec fn fitted<S: View>(fit: Fit<S>) -> Fit<S::V> {
    Fit {
        state: fit.state@,
        cost: fit.cost,
        rms_before: fit.rms_before,
        observations: fit.observations,
    }
}

/// What the best fit so far holds.
pub open spec fn best_so_far<S: View>(best: Option<Fit<S>>) -> Option<Fit<S::V>> {
    match best {
        Some(fit) => Some(fitted(fit)),
        None => None,
    }
}

/// What a search has found.
pub open spec fn found_by<S: View>(found: Search<S>) -> Search<S::V> {
    match found {
        Search::TooFewObservations => Search::TooFewObservations,
        Search::Best(best) => Search::Best(best_so_far(best)),
    }
}

/// Once a start has too few observations, so has the whole search.
proof fn lemma_too_few_stays<S, L>(
    p: Problem<S, L>,
    parameters: int,
    starts: Seq<Double>,
    i: int,
    n: int,
)
    requires
        0 <= i <= n,
        searched(p, parameters, starts, i) is TooFewObservations,
    ensures
        searched(p, parameters, starts, n) is TooFewObservations,
    decreases n,
{
    if i < n {
        lemma_too_few_stays(p, parameters, starts, i, n - 1);
    }
}

/// Descend from every start and keep the cheapest fit. `init` sets up the state
/// for a focal, `measure` gives the number of observations and the cost of a
/// state; `linearize` and `step` as in [`descend`].
pub fn best_fit<
    S: View,
    L: View,
    Init: Fn(Double) -> Option<S>,
    Measure: Fn(&S) -> (usize, Double),
    Linearize: Fn(&S) -> L,
    Step: Fn(&S, &L, &Double) -> Option<(S, Double)>,
>(
    init: &Init,
    measure: &Measure,
    linearize: &Linearize,
    step: &Step,
    parameters: usize,
    starts: &Vec<Double>,
) -> (found: Search<S>)
    requires
        are_starters(init, measure),
        lm::are_steps(linearize, step),
        parameters <= usize::MAX - SPARE_OBSERVATIONS,
    ensures
        forall|p: Problem<S::V, L::V>| #[trigger]
            is_posed(init, measure, linearize, step, p) ==> found_by(found) == searched(
                p,
                parameters as int,
                starts@,
                starts@.len() as int,
            ),
        found matches Search::Best(Some(fit)) ==> fit.observations >= parameters
            + SPARE_OBSERVATIONS && fit.observations < 0x20_0000_0000_0000,
{
    let mut best: Option<Fit<S>> = None;
    let mut i: usize = 0;
    while i < starts.len()
        invariant
            are_starters(init, measure),
            lm::are_steps(linearize, step),
            parameters <= usize::MAX - SPARE_OBSERVATIONS,
            i <= starts@.len(),
            forall|p: Problem<S::V, L::V>| #[trigger]
                is_posed(init, measure, linearize, step, p) ==> searched(
                    p,
                    parameters as int,
                    starts@,
                    i as int,
                ) == Search::Best(best_so_far(best)),
            best matches Some(fit) ==> fit.observations >= parameters + SPARE_OBSERVATIONS
                && fit.observations < 0x20_0000_0000_0000,
        decreases starts@.len() - i,
    {
        let setup: Option<S> = init(starts[i]);
        let ghost set = setup;
        proof {
            assert(call_ensures(init, (starts@[i as int],), set));
        }
        if let Some(start) = setup {
            let ghost begin = start;
            let measured: (usize, Double) = measure(&start);
            proof {
                assert(call_ensures(measure, (&begin,), measured));
            }
            let m: usize = measured.0;
            let cost: Double = measured.1;
            if m < parameters + SPARE_OBSERVATIONS {
                proof {
                    assert forall|p: Problem<S::V, L::V>| #[trigger]
                        is_posed(init, measure, linearize, step, p) implies searched(
                        p,
                        parameters as int,
                        starts@,
                        starts@.len() as int,
                    ) is TooFewObservations by {
                        lemma_too_few_stays(
                            p,
                            parameters as int,
                            starts@,
                            i + 1,
                            starts@.len() as int,
                        );
                    }
                }
                return Search::TooFewObservations;
            }
            let rms_before: Double = (cost / Double::from_count(m as u64)).sqrt();
            let end: (S, Double) = descend(
                linearize,
                step,
                Convergence::DecreaseBelow(Double::from_bits(LM_DECREASE)),
                start,
                cost,
                LM_ITERATIONS,
            );
            let ghost reached = end;
            proof {
                assert forall|p: Problem<S::V, L::V>| #[trigger]
                    is_posed(init, measure, linearize, step, p) implies (reached.0@, reached.1)
                    == lm::descent(
                    p.linear,
                    p.stepping,
                    calib_rule(),
                    begin@,
                    cost,
                    LM_ITERATIONS as nat,
                ) by {
                    assert(lm::linearizes(linearize, p.linear) && lm::steps(step, p.stepping));
                }
            }
            let cheaper: bool = match &best {
                None => true,
                Some(b) => end.1.lt(&b.cost),
            };
            if cheaper {
                best = Some(Fit { state: end.0, cost: end.1, rms_before, observations: m });
            }
        }
        i = i + 1;
    }
    Search::Best(best)
}

/// Variance of a parameter from the residual variance and its entry of the
/// inverse curvature, if it makes sense.
pub open spec fn variance_of(residual: Double, curvature: Option<Double>) -> Option<Double> {
    match curvature {
        Some(c) if (residual * c).finite() && (Double { bits: 0 }).less(residual * c) => Some(
            residual * c,
        ),
        _ => None,
    }
}

fn parameter_variance(residual: &Double, curvature: &Option<Double>) -> (v: Option<Double>)
    ensures
        v == variance_of(*residual, *curvature),
{
    match curvature {
        None => None,
        Some(c) => {
            let v: Double = *residual * *c;
            if v.is_finite() && Double::from_bits(0).lt(&v) {
                Some(v)
            } else {
                None
            }
        },
    }
}

/// The values of a fit that the gates look at.
#[derive(Clone, Copy, Debug)]
pub struct FitSummary {
    pub focal: Double,
    pub k1: Double,
    pub cost: Double,
    pub rms_before: Double,
    pub observations: usize,
    pub parameters: usize,
    /// Diagonal entries of the inverse curvature for the focal and for k1, if
    /// it is not singular.
    pub focal_curvature: Option<Double>,
    pub k1_curvature: Option<Double>,
}

impl FitSummary {
    pub open spec fn wf(self) -> bool {
        self.parameters < self.observations < 0x20_0000_0000_0000
    }

    pub open spec fn rms_after(self) -> Double {
        rms_for(self.cost, self.observations as int)
    }

    /// Variance of the residuals.
    pub open spec fn residual_variance(self) -> Double {
        self.cost.per(double::whole(self.observations - self.parameters))
    }

    pub open spec fn focal_variance(self) -> Option<Double> {
        variance_of(self.residual_variance(), self.focal_curvature)
    }

    pub open spec fn k1_variance(self) -> Option<Double> {
        variance_of(self.residual_variance(), self.k1_curvature)
    }

    /// k1 is proved: the parameters are finite, k1 is that of a phone lens, the
    /// refinement did not worsen the fit, the curvature bounds both parameters,
    /// and k1 tightly.
    pub open spec fn proves_k1(self) -> bool {
        &&& self.focal.finite()
        &&& self.k1.finite()
        &&& !(Double { bits: MAX_ABS_K1 }).less(self.k1.size())
        &&& !self.rms_before.less(self.rms_after())
        &&& self.focal_variance() is Some
        &&& self.k1_variance() is Some
        &&& !(Double { bits: MAX_K1_SIGMA }).less(self.k1_variance()->0.root())
    }

    /// The focal is proved: it is plausible, and tightly bounded.
    pub open spec fn proves_focal(self, dim: Double) -> bool {
        &&& is_plausible_focal(self.focal, dim)
        &&& self.focal_variance()->0.root().per(self.focal).at_most(
            Double { bits: MAX_FOCAL_REL_SIGMA },
        )
    }

    /// What may be claimed.
    pub open spec fn verdict(self, dim: Double) -> Verdict {
        if !self.proves_k1() {
            Verdict::Refused
        } else if !self.proves_focal(dim) {
            Verdict::DistortionOnly
        } else {
            Verdict::Full(
                SelfCalibration {
                    focal_px: self.focal,
                    k1: self.k1,
                    focal_sigma_px: self.focal_variance()->0.root(),
                    k1_sigma: self.k1_variance()->0.root(),
                    rms_before_px: self.rms_before,
                    rms_after_px: self.rms_after(),
                },
            )
        }
    }
}

/// Apply the conditioning gates to a fit, for frames whose larger side is
/// `dim`.
pub fn certify(fit: &FitSummary, dim: &Double) -> (verdict: Verdict)
    requires
        fit.wf(),
    ensures
        verdict == fit.verdict(*dim),
{
    if !(fit.focal.is_finite() && fit.k1.is_finite()) || Double::from_bits(MAX_ABS_K1).lt(
        &fit.k1.abs(),
    ) {
        return Verdict::Refused;
    }
    let rms_after: Double = (fit.cost / Double::from_count(fit.observations as u64)).sqrt();
    if fit.rms_before.lt(&rms_after) {
        // refinement must not have made things worse
        return Verdict::Refused;
    }
    let residual: Double = fit.cost / Double::from_count(
        (fit.observations - fit.parameters) as u64,
    );
    let focal_var: Double = match parameter_variance(&residual, &fit.focal_curvature) {
        None => {
            return Verdict::Refused;
        },
        Some(v) => v,
    };
    let k1_var: Double = match parameter_variance(&residual, &fit.k1_curvature) {
        None => {
            return Verdict::Refused;
        },
        Some(v) => v,
    };
    let focal_sigma_px: Double = focal_var.sqrt();
    let k1_sigma: Double = k1_var.sqrt();
    if Double::from_bits(MAX_K1_SIGMA).lt(&k1_sigma) {
        // ill-conditioned: a confident number would be a lie
        return Verdict::Refused;
    }
    if !(plausible_focal(&fit.focal, dim) && (focal_sigma_px / fit.focal).le(
        &Double::from_bits(MAX_FOCAL_REL_SIGMA),
    )) {
        return Verdict::DistortionOnly;
    }
    Verdict::Full(
        SelfCalibration {
            focal_px: fit.focal,
            k1: fit.k1,
            focal_sigma_px,
            k1_sigma,
            rms_before_px: fit.rms_before,
            rms_after_px: rms_after,
        },
    )
}

/// A focal is claimed only together with k1, and only where both are bounded
/// tightly and the fit did not get worse. The gates fail independently: with k1
/// proved and the focal not, k1 is kept.
pub proof fn law_claims_are_certified(fit: FitSummary, dim: Double)
    ensures
        fit.verdict(dim) matches Verdict::Full(c) ==> {
            &&& !(Double { bits: MAX_K1_SIGMA }).less(c.k1_sigma)
            &&& c.focal_sigma_px.per(c.focal_px).at_most(Double { bits: MAX_FOCAL_REL_SIGMA })
            &&& is_plausible_focal(c.focal_px, dim)
            &&& !(Double { bits: MAX_ABS_K1 }).less(c.k1.size())
            &&& !c.rms_before_px.less(c.rms_after_px)
        },
        fit.verdict(dim) is Refused <==> !fit.proves_k1(),
        fit.verdict(dim) is DistortionOnly <==> fit.proves_k1() && !fit.proves_focal(dim),
{
}

/// Larger side of a frame.
pub open spec fn larger_side(w: int, h: int) -> int {
    if w >= h {
        w
    } else {
        h
    }
}

/// Focal and k1, entries of the inverse curvature for both, and the chain of a
/// state can be asked for.
pub open spec fn are_readers<
    S,
    Intrinsics: Fn(&S) -> (Double, Double),
    Curvature: Fn(&S) -> (Option<Double>, Option<Double>),
    Chain: Fn(&S) -> Vec<Mat3>,
>(intrinsics: &Intrinsics, curvature: &Curvature, chain: &Chain) -> bool {
    &&& forall|s: &S| call_requires(intrinsics, (s,))
    &&& forall|s: &S| call_requires(curvature, (s,))
    &&& forall|s: &S| call_requires(chain, (s,))
}

/// `intrinsics`, `curvature` and `chain` compute what `p` says.
pub open spec fn is_read<
    S: View,
    L,
    Intrinsics: Fn(&S) -> (Double, Double),
    Curvature: Fn(&S) -> (Option<Double>, Option<Double>),
    Chain: Fn(&S) -> Vec<Mat3>,
>(intrinsics: &Intrinsics, curvature: &Curvature, chain: &Chain, p: Problem<S::V, L>) -> bool {
    &&& forall|s: &S, r: (Double, Double)| #[trigger]
        call_ensures(intrinsics, (s,), r) ==> r == (p.lens)(s@)
    &&& forall|s: &S, r: (Option<Double>, Option<Double>)| #[trigger]
        call_ensures(curvature, (s,), r) ==> r == (p.bend)(s@)
    &&& forall|s: &S, r: Vec<Mat3>| #[trigger] call_ensures(chain, (s,), r) ==> r@ == (p.chain)(s@)
}

/// `chain` gives chains of `n` keyframes.
pub open spec fn lays<S, Chain: Fn(&S) -> Vec<Mat3>>(chain: &Chain, n: nat) -> bool {
    forall|s: &S, r: Vec<Mat3>| #[trigger] call_ensures(chain, (s,), r) ==> r@.len() == n
}

/// A chain that `outcome` claims has `n` keyframes.
pub open spec fn is_as_long(outcome: CalibOutcome, n: nat) -> bool {
    match outcome {
        CalibOutcome::Full(_, w) => w@.len() == n,
        CalibOutcome::DistortionOnly { k1: _, chain: w } => w@.len() == n,
        CalibOutcome::Refused => true,
    }
}

/// `outcome` is what the gates allow to be claimed of a fit.
pub open spec fn is_claimed<S, L>(
    p: Problem<S, L>,
    fit: Fit<S>,
    parameters: int,
    dim: Double,
    outcome: CalibOutcome,
) -> bool {
    let lens = (p.lens)(fit.state);
    match (summary_of(fit, lens, (p.bend)(fit.state), parameters).verdict(dim), outcome) {
        (Verdict::Full(c), CalibOutcome::Full(claimed, w)) => c == claimed && w@ == (p.chain)(
            fit.state,
        ),
        (Verdict::DistortionOnly, CalibOutcome::DistortionOnly { k1, chain: w }) => k1 == lens.1
            && w@ == (p.chain)(fit.state),
        (Verdict::Refused, CalibOutcome::Refused) => true,
        _ => false,
    }
}

/// What the gates look at.
pub open spec fn summary_of<S>(
    fit: Fit<S>,
    lens: (Double, Double),
    bend: (Option<Double>, Option<Double>),
    parameters: int,
) -> FitSummary {
    FitSummary {
        focal: lens.0,
        k1: lens.1,
        cost: fit.cost,
        rms_before: fit.rms_before,
        observations: fit.observations,
        parameters: parameters as usize,
        focal_curvature: bend.0,
        k1_curvature: bend.1,
    }
}

/// The larger frame dimension.
pub open spec fn dimension(width: int, height: int) -> Double {
    double::whole(larger_side(width, height))
}

/// The focals that a calibration of this chain starts with.
pub open spec fn calib_starts(w_chain: Seq<Mat3>, width: int, height: int) -> Seq<Double> {
    starts_for(
        initial_focal(w_chain, distortion::half(width), distortion::half(height)),
        dimension(width, height),
    )
}

/// `outcome` is what a joint refinement of this chain leads to.
pub open spec fn is_calibrated<S, L>(
    p: Problem<S, L>,
    width: int,
    height: int,
    w_chain: Seq<Mat3>,
    marker_a: int,
    links: int,
    outcome: CalibOutcome,
) -> bool {
    let parameters = 2 + 6 * w_chain.len() as int;
    let starts = calib_starts(w_chain, width, height);
    if !is_eligible(w_chain.len() as int, marker_a, links) {
        outcome is Refused
    } else {
        match searched(p, parameters, starts, starts.len() as int) {
            Search::Best(Some(fit)) => is_claimed(
                p,
                fit,
                parameters,
                dimension(width, height),
                outcome,
            ),
            _ => outcome is Refused,
        }
    }
}

/// Jointly refine {focal, k1, keyframe poses} over a pan's correspondences,
/// then apply the conditioning gates. There are two parameters for the lens and
/// six for each keyframe's pose. Whatever problem the closures pose, it is that
/// problem which is solved.
pub fn self_calibrate_with<
    S: View,
    L: View,
    Init: Fn(Double) -> Option<S>,
    Measure: Fn(&S) -> (usize, Double),
    Linearize: Fn(&S) -> L,
    Step: Fn(&S, &L, &Double) -> Option<(S, Double)>,
    Intrinsics: Fn(&S) -> (Double, Double),
    Curvature: Fn(&S) -> (Option<Double>, Option<Double>),
    Chain: Fn(&S) -> Vec<Mat3>,
>(
    width: usize,
    height: usize,
    w_chain: &Vec<Mat3>,
    marker_a: usize,
    links: usize,
    init: &Init,
    measure: &Measure,
    linearize: &Linearize,
    step: &Step,
    intrinsics: &Intrinsics,
    curvature: &Curvature,
    chain: &Chain,
) -> (outcome: CalibOutcome)
    requires
        width < 0x20_0000_0000_0000,
        height < 0x20_0000_0000_0000,
        w_chain@.len() <= (usize::MAX - 22) / 6,
        are_starters(init, measure),
        lm::are_steps(linearize, step),
        are_readers(intrinsics, curvature, chain),
    ensures
        !is_eligible(w_chain@.len() as int, marker_a as int, links as int) ==> outcome is Refused,
        forall|n: nat| #[trigger] lays(chain, n) ==> is_as_long(outcome, n),
        forall|p: Problem<S::V, L::V>| #[trigger]
            is_posed(init, measure, linearize, step, p) && #[trigger] is_read(
                intrinsics,
                curvature,
                chain,
                p,
            ) ==> is_calibrated(
                p,
                width as int,
                height as int,
                w_chain@,
                marker_a as int,
                links as int,
                outcome,
            ),
{
    let n: usize = w_chain.len();
    if !eligible(n, marker_a, links) {
        return CalibOutcome::Refused;
    }
    let two: Double = Double::from_bits(distortion::TWO);
    let cx: Double = Double::from_count(width as u64) / two;
    let cy: Double = Double::from_count(height as u64) / two;
    let side: usize = if width >= height {
        width
    } else {
        height
    };
    let dim: Double = Double::from_count(side as u64);
    let starts: Vec<Double> = focal_starts(init_focal(w_chain, &cx, &cy), &dim);
    let parameters: usize = 2 + 6 * n;
    let found: Search<S> = best_fit(init, measure, linearize, step, parameters, &starts);
    let ghost search = found;
    let fit: Fit<S> = match found {
        Search::Best(Some(fit)) => fit,
        _ => {
            return CalibOutcome::Refused;
        },
    };
    let ghost state = fit.state;
    let lens: (Double, Double) = intrinsics(&fit.state);
    let bend: (Option<Double>, Option<Double>) = curvature(&fit.state);
    let summary: FitSummary = FitSummary {
        focal: lens.0,
        k1: lens.1,
        cost: fit.cost,
        rms_before: fit.rms_before,
        observations: fit.observations,
        parameters,
        focal_curvature: bend.0,
        k1_curvature: bend.1,
    };
    let outcome: CalibOutcome = match certify(&summary, &dim) {
        Verdict::Refused => CalibOutcome::Refused,
        Verdict::DistortionOnly => {
            let w: Vec<Mat3> = chain(&fit.state);
            assert(call_ensures(chain, (&state,), w));
            CalibOutcome::DistortionOnly { k1: lens.1, chain: w }
        },
        Verdict::Full(c) => {
            let w: Vec<Mat3> = chain(&fit.state);
            assert(call_ensures(chain, (&state,), w));
            CalibOutcome::Full(c, w)
        },
    };
    proof {
        assert(call_ensures(intrinsics, (&state,), lens));
        assert(call_ensures(curvature, (&state,), bend));
        assert forall|p: Problem<S::V, L::V>| #[trigger]
            is_posed(init, measure, linearize, step, p) && #[trigger] is_read(
            intrinsics,
            curvature,
            chain,
            p,
        ) implies is_calibrated(
            p,
            width as int,
            height as int,
            w_chain@,
            marker_a as int,
            links as int,
            outcome,
        ) by {
            assert(found_by(search) == Search::Best(Some(fitted(fit))));
            assert(summary == summary_of(
                fitted(fit),
                (p.lens)(state@),
                (p.bend)(state@),
                parameters as int,
            ));
        }
    }
    outcome
}

} // verus!
