//! The Error Bound: a 95% bound in mm as a function of wall x (mm from Marker
//! A's printed top-left corner).
use vstd::prelude::*;

use crate::double;
use crate::double::Double;
use crate::magnitude;
use crate::order;
use crate::sorting;
use crate::sorting::sort_by_key;

verus! {

/// 95% coverage factor: the bits of 2.0.
pub const K95: u64 = 0x4000_0000_0000_0000;

/// Relative scale uncertainty without a loop closure: the bits of 0.02.
pub const OPEN_LOOP_REL: u64 = 0x3f94_7ae1_47ae_147b;

/// Least closure span that carries a ramp: the bits of 1e-9.
pub const LEAST_SPAN: u64 = 0x3e11_2e0b_e826_d695;

/// Error Bound evaluator.
#[derive(Debug)]
pub struct BoundModel {
    /// Anchor-corner noise (mm) times the worst vertical extrapolation lever of
    /// the rendered extent.
    pub sigma_a_mm: Double,
    /// Relative scale uncertainty per mm of distance from the anchor.
    pub rel: Double,
    /// Measured post-closure residual at Marker B: (span from the anchor to B
    /// in mm, residual mm), ramped linearly from the anchor. `None` without
    /// closure.
    pub closure_ramp: Option<(Double, Double)>,
    /// (|wall x|, accumulated tracking variance mm^2), sorted by |x| with a
    /// running max: conservative monotone envelope of the random walk.
    pub track: Vec<(Double, Double)>,
}

/// Tracking variance at distance `ax`: that of the last point, from `k` on, that
/// is reached without passing one farther away.
pub open spec fn track_at(
    track: Seq<(Double, Double)>,
    ax: Double,
    k: int,
    before: Double,
) -> Double
    decreases track.len() - k,
{
    if k < track.len() && track[k].0.at_most(ax) {
        track_at(track, ax, k + 1, track[k].1)
    } else {
        before
    }
}

/// Variance that the closure residual leaves at distance `ax`.
pub open spec fn ramp_at(ramp: Option<(Double, Double)>, ax: Double) -> Double {
    match ramp {
        Some((span, residual)) if Double { bits: LEAST_SPAN }.less(span) => {
            (residual * ax).per(span) * (residual * ax).per(span)
        },
        _ => Double { bits: 0 },
    }
}

impl BoundModel {
    /// Variance at distance `ax` from the anchor.
    pub open spec fn variance(self, ax: Double) -> Double {
        self.sigma_a_mm * self.sigma_a_mm + track_at(self.track@, ax, 0, Double { bits: 0 }) + (ax
            * self.rel) * (ax * self.rel) + ramp_at(self.closure_ramp, ax)
    }

    /// The bound at wall position `x`.
    pub open spec fn bound_at(self, x: Double) -> Double {
        Double { bits: K95 } * self.variance(double::absolute(x)).root()
    }

    /// Per-position component (mm) of the Error Bound at wall position x mm
    /// from the anchor origin.
    ///
    /// Not a standalone 95% bound on absolute positions: they carry a known
    /// systematic bias from drift redistribution, which is common-mode and
    /// largely cancels between two points of the same session. Use it only as
    /// a building block for distance bounds.
    pub fn bound_at_mm(&self, x_mm: Double) -> (b: Double)
        ensures
            b == self.bound_at(x_mm),
    {
        let ax: Double = x_mm.abs();
        let mut track_var: Double = Double::from_bits(0);
        let mut i: usize = 0;
        while i < self.track.len() && self.track[i].0.le(&ax)
            invariant
                i <= self.track@.len(),
                track_at(self.track@, ax, 0, Double { bits: 0 }) == track_at(
                    self.track@,
                    ax,
                    i as int,
                    track_var,
                ),
            decreases self.track@.len() - i,
        {
            track_var = self.track[i].1;
            i = i + 1;
        }
        let ramp_var: Double = match &self.closure_ramp {
            Some((span, residual)) => if Double::from_bits(LEAST_SPAN).lt(span) {
                let r: Double = *residual * ax / *span;
                r * r
            } else {
                Double::from_bits(0)
            },
            None => Double::from_bits(0),
        };
        let drift: Double = ax * self.rel;
        Double::from_bits(K95) * (self.sigma_a_mm * self.sigma_a_mm + track_var + drift * drift
            + ramp_var).sqrt()
    }

    /// The Error Bound: 95% bound (mm) on a distance measured between wall
    /// positions `xa_mm` and `xb_mm`. The endpoint sum is deliberate: measured
    /// worst ratios exceed what a root-sum-square combination assumes.
    pub fn bound_between_mm(&self, xa_mm: Double, xb_mm: Double) -> (b: Double)
        ensures
            b == self.bound_at(xa_mm) + self.bound_at(xb_mm),
    {
        self.bound_at_mm(xa_mm) + self.bound_at_mm(xb_mm)
    }

    /// A model with no negative or infinite part, whose tracking variance never
    /// falls.
    pub open spec fn wf(self) -> bool {
        &&& order::is_amount(self.sigma_a_mm)
        &&& order::is_amount(self.rel)
        &&& self.rel.finite()
        &&& (self.closure_ramp matches Some((span, residual)) ==> {
            &&& span.finite()
            &&& order::is_amount(residual)
            &&& residual.finite()
        })
        &&& is_envelope(self.track@)
    }
}

/// The variances are amounts that never fall.
pub open spec fn is_envelope(track: Seq<(Double, Double)>) -> bool {
    &&& forall|i: int| 0 <= i < track.len() ==> order::is_amount((#[trigger] track[i]).1)
    &&& forall|i: int, j: int|
        0 <= i <= j < track.len() ==> (#[trigger] track[i]).1.bits <= (#[trigger] track[j]).1.bits
}

proof fn lemma_track_grows(
    track: Seq<(Double, Double)>,
    ax: Double,
    ax2: Double,
    k: int,
    before: Double,
)
    requires
        is_envelope(track),
        0 <= k <= track.len(),
        ax.at_most(ax2),
        order::is_amount(before),
        k < track.len() ==> before.bits <= track[k].1.bits,
    ensures
        order::is_amount(track_at(track, ax, k, before)),
        order::is_amount(track_at(track, ax2, k, before)),
        track_at(track, ax, k, before).bits <= track_at(track, ax2, k, before).bits,
        before.bits <= track_at(track, ax2, k, before).bits,
    decreases track.len() - k,
{
    if k < track.len() && track[k].0.at_most(ax2) {
        lemma_track_grows(track, ax, ax2, k + 1, track[k].1);
    }
}

/// The bound never falls with the distance from the anchor.
pub proof fn law_bound_grows_with_distance(m: BoundModel, x: Double, x2: Double)
    requires
        m.wf(),
        x.finite(),
        x2.finite(),
        x.magnitude() <= x2.magnitude(),
    ensures
        m.bound_at(x).at_most(m.bound_at(x2)),
        !m.bound_at(x).is_negative(),
{
    let (ax, ax2) = (double::absolute(x), double::absolute(x2));
    let zero = Double { bits: 0 };
    order::lemma_absolute_is_amount(x);
    order::lemma_absolute_is_amount(x2);
    order::lemma_amounts_are_ordered(ax, ax2);
    lemma_track_grows(m.track@, ax, ax2, 0, zero);
    let (t, t2) = (track_at(m.track@, ax, 0, zero), track_at(m.track@, ax2, 0, zero));
    order::lemma_square_grows(m.sigma_a_mm, m.sigma_a_mm);
    let s = m.sigma_a_mm * m.sigma_a_mm;
    order::lemma_sum_grows(s, t, s, t2);
    order::lemma_product_grows(ax, m.rel, ax2, m.rel);
    order::lemma_square_grows(ax * m.rel, ax2 * m.rel);
    let (d, d2) = ((ax * m.rel) * (ax * m.rel), (ax2 * m.rel) * (ax2 * m.rel));
    order::lemma_sum_grows(s + t, d, s + t2, d2);
    let (r, r2) = (ramp_at(m.closure_ramp, ax), ramp_at(m.closure_ramp, ax2));
    lemma_ramp_grows(m.closure_ramp, ax, ax2);
    order::lemma_sum_grows(s + t + d, r, s + t2 + d2, r2);
    order::lemma_root_grows(m.variance(ax), m.variance(ax2));
    order::lemma_multiple_grows(
        Double { bits: K95 },
        m.variance(ax).root(),
        m.variance(ax2).root(),
    );
    order::lemma_amounts_are_ordered(m.bound_at(x), m.bound_at(x2));
}

/// The bound is the same to the left and to the right of the anchor.
pub proof fn law_bound_is_even(m: BoundModel, x: Double)
    ensures
        m.bound_at(x.opposite()) == m.bound_at(x),
{
    assert(double::absolute(x.opposite()) == double::absolute(x));
}

/// At the anchor, where no tracking variance is reached, the bound is that of the
/// anchor's own noise: twice its sigma.
pub proof fn law_bound_at_anchor(m: BoundModel)
    requires
        m.wf(),
        m.track@.len() > 0 ==> !m.track@[0].0.at_most(Double { bits: 0 }),
    ensures
        ({
            let zero = Double { bits: 0 };
            let square = m.sigma_a_mm * m.sigma_a_mm;
            &&& m.bound_at(zero) == Double { bits: K95 } * square.root()
            &&& magnitude::LEADING <= square.bits < magnitude::INFINITY ==> m.bound_at(zero)
                == Double { bits: K95 } * m.sigma_a_mm
        }),
{
    let zero = Double { bits: 0 };
    let square = m.sigma_a_mm * m.sigma_a_mm;
    assert(double::absolute(zero) == zero);
    order::lemma_square_grows(m.sigma_a_mm, m.sigma_a_mm);
    order::lemma_zero_times(m.rel);
    order::lemma_zero_times(zero);
    order::lemma_plus_zero(square);
    assert(track_at(m.track@, zero, 0, zero) == zero);
    if let Some((span, residual)) = m.closure_ramp {
        let least = Double { bits: LEAST_SPAN };
        if least.less(span) {
            lemma_positive(least, span);
            order::lemma_times_zero(residual);
            order::lemma_zero_over(span);
        }
    }
    assert(ramp_at(m.closure_ramp, zero) == zero);
    assert(m.variance(zero) == square);
    if magnitude::LEADING <= square.bits < magnitude::INFINITY {
        order::lemma_root_of_square(m.sigma_a_mm);
    }
}

proof fn lemma_ramp_grows(ramp: Option<(Double, Double)>, ax: Double, ax2: Double)
    requires
        ramp matches Some((span, residual)) ==> {
            &&& span.finite()
            &&& order::is_amount(residual)
            &&& residual.finite()
        },
        order::is_amount(ax),
        order::is_amount(ax2),
        ax2.finite(),
        ax.bits <= ax2.bits,
    ensures
        order::is_amount(ramp_at(ramp, ax)),
        order::is_amount(ramp_at(ramp, ax2)),
        ramp_at(ramp, ax).bits <= ramp_at(ramp, ax2).bits,
{
    if let Some((span, residual)) = ramp {
        let least = Double { bits: LEAST_SPAN };
        if least.less(span) {
            lemma_positive(least, span);
            order::lemma_product_grows(residual, ax, residual, ax2);
            order::lemma_quotient_grows(residual * ax, residual * ax2, span);
            order::lemma_square_grows((residual * ax).per(span), (residual * ax2).per(span));
        }
    }
}

/// No closure residual is as small as none, and a smaller one over the same span is
/// smaller.
pub open spec fn is_milder_ramp(a: Option<(Double, Double)>, b: Option<(Double, Double)>) -> bool {
    match (a, b) {
        (None, _) => true,
        (Some((span, residual)), Some((span2, residual2))) => span == span2 && residual.bits
            <= residual2.bits,
        _ => false,
    }
}

/// The same distances with variances that are not larger.
pub open spec fn is_milder_track(a: Seq<(Double, Double)>, b: Seq<(Double, Double)>) -> bool {
    &&& a.len() == b.len()
    &&& forall|i: int|
        0 <= i < a.len() ==> (#[trigger] a[i]).0 == (#[trigger] b[i]).0 && a[i].1.bits
            <= b[i].1.bits
}

proof fn lemma_milder_track(
    a: Seq<(Double, Double)>,
    b: Seq<(Double, Double)>,
    ax: Double,
    k: int,
    before: Double,
    before2: Double,
)
    requires
        is_envelope(a),
        is_envelope(b),
        is_milder_track(a, b),
        0 <= k <= a.len(),
        order::is_amount(before),
        order::is_amount(before2),
        before.bits <= before2.bits,
    ensures
        order::is_amount(track_at(a, ax, k, before)),
        order::is_amount(track_at(b, ax, k, before2)),
        track_at(a, ax, k, before).bits <= track_at(b, ax, k, before2).bits,
    decreases a.len() - k,
{
    if k < a.len() {
        assert(a[k].0 == b[k].0);
        if a[k].0.at_most(ax) {
            lemma_milder_track(a, b, ax, k + 1, a[k].1, b[k].1);
        }
    }
}

/// A sloppier capture widens the bound: it never falls where anchor noise, scale
/// uncertainty, tracking variance or closure residual grow.
pub proof fn law_sloppy_capture_widens_bound(m: BoundModel, m2: BoundModel, x: Double)
    requires
        m.wf(),
        m2.wf(),
        x.finite(),
        m.sigma_a_mm.bits <= m2.sigma_a_mm.bits,
        m.rel.bits <= m2.rel.bits,
        is_milder_ramp(m.closure_ramp, m2.closure_ramp),
        is_milder_track(m.track@, m2.track@),
    ensures
        m.bound_at(x).at_most(m2.bound_at(x)),
{
    let ax = double::absolute(x);
    let zero = Double { bits: 0 };
    order::lemma_absolute_is_amount(x);
    lemma_milder_track(m.track@, m2.track@, ax, 0, zero, zero);
    let (t, t2) = (track_at(m.track@, ax, 0, zero), track_at(m2.track@, ax, 0, zero));
    order::lemma_square_grows(m.sigma_a_mm, m2.sigma_a_mm);
    let (s, s2) = (m.sigma_a_mm * m.sigma_a_mm, m2.sigma_a_mm * m2.sigma_a_mm);
    order::lemma_sum_grows(s, t, s2, t2);
    order::lemma_product_grows(ax, m.rel, ax, m2.rel);
    order::lemma_square_grows(ax * m.rel, ax * m2.rel);
    let (d, d2) = ((ax * m.rel) * (ax * m.rel), (ax * m2.rel) * (ax * m2.rel));
    order::lemma_sum_grows(s + t, d, s2 + t2, d2);
    lemma_milder_ramp(m.closure_ramp, m2.closure_ramp, ax);
    let (r, r2) = (ramp_at(m.closure_ramp, ax), ramp_at(m2.closure_ramp, ax));
    order::lemma_sum_grows(s + t + d, r, s2 + t2 + d2, r2);
    order::lemma_root_grows(m.variance(ax), m2.variance(ax));
    order::lemma_multiple_grows(
        Double { bits: K95 },
        m.variance(ax).root(),
        m2.variance(ax).root(),
    );
    order::lemma_amounts_are_ordered(m.bound_at(x), m2.bound_at(x));
}

proof fn lemma_milder_ramp(a: Option<(Double, Double)>, b: Option<(Double, Double)>, ax: Double)
    requires
        is_milder_ramp(a, b),
        b matches Some((span, residual)) ==> {
            &&& span.finite()
            &&& order::is_amount(residual)
            &&& residual.finite()
        },
        a matches Some((_, residual)) ==> order::is_amount(residual) && residual.finite(),
        order::is_amount(ax),
        ax.finite(),
    ensures
        order::is_amount(ramp_at(a, ax)),
        order::is_amount(ramp_at(b, ax)),
        ramp_at(a, ax).bits <= ramp_at(b, ax).bits,
{
    lemma_ramp_grows(b, ax, ax);
    match (a, b) {
        (Some((span, residual)), Some((_, residual2))) => {
            let least = Double { bits: LEAST_SPAN };
            if least.less(span) {
                lemma_positive(least, span);
                order::lemma_product_grows(residual, ax, residual2, ax);
                order::lemma_quotient_grows(residual * ax, residual2 * ax, span);
                order::lemma_square_grows((residual * ax).per(span), (residual2 * ax).per(span));
            }
        },
        _ => {},
    }
}

/// What exceeds an amount is positive.
proof fn lemma_positive(a: Double, b: Double)
    requires
        order::is_amount(a),
        a.less(b),
    ensures
        order::is_amount(b),
        b.bits > 0,
{
    magnitude::lemma_units_nonnegative(a.magnitude());
    magnitude::lemma_units_nonnegative(b.magnitude());
    assert(magnitude::units(0) == 0) by (nonlinear_arith);
}

/// The larger of the first `n` variances, at least 0.
pub open spec fn running_max(track: Seq<(Double, Double)>, n: int) -> Double
    decreases n,
{
    if n <= 0 {
        Double { bits: 0 }
    } else {
        double::larger(running_max(track, n - 1), track[n - 1].1)
    }
}

/// The envelope of tracking points: sorted by distance, each with the largest
/// variance up to there.
pub open spec fn envelope_of(points: Seq<(Double, Double)>) -> Seq<(Double, Double)> {
    let s = sorting::sorted(points);
    Seq::new(s.len(), |i: int| (s[i].0, running_max(s, i + 1)))
}

/// Monotone envelope over |wall x| (conservative).
pub fn track_envelope(points: &Vec<(Double, Double)>) -> (track: Vec<(Double, Double)>)
    ensures
        track@ == envelope_of(points@),
        is_envelope(track@),
{
    let by_distance: Vec<(Double, Double)> = sort_by_key(points);
    let mut track: Vec<(Double, Double)> = Vec::new();
    let mut running: Double = Double::from_bits(0);
    let mut i: usize = 0;
    let ghost s = by_distance@;
    while i < by_distance.len()
        invariant
            s == by_distance@,
            i <= s.len(),
            running == running_max(s, i as int),
            track@.len() == i,
            forall|k: int|
                0 <= k < i ==> #[trigger] track@[k] == (s[k].0, running_max(s, k + 1)),
        decreases s.len() - i,
    {
        running = running.max(&by_distance[i].1);
        track.push((by_distance[i].0, running));
        i = i + 1;
    }
    proof {
        assert(track@ =~= envelope_of(points@));
        assert forall|i: int| 0 <= i < track@.len() implies order::is_amount(
            (#[trigger] track@[i]).1,
        ) by {
            lemma_running_max_grows(s, i + 1, i + 1);
        }
        assert forall|i: int, j: int| 0 <= i <= j < track@.len() implies (
        #[trigger] track@[i]).1.bits <= (#[trigger] track@[j]).1.bits by {
            lemma_running_max_grows(s, i + 1, j + 1);
        }
    }
    track
}

proof fn lemma_running_max_grows(track: Seq<(Double, Double)>, m: int, n: int)
    requires
        0 <= m <= n <= track.len(),
    ensures
        order::is_amount(running_max(track, m)),
        order::is_amount(running_max(track, n)),
        running_max(track, m).bits <= running_max(track, n).bits,
    decreases n,
{
    if n > 0 {
        if m < n {
            lemma_running_max_grows(track, m, n - 1);
        } else {
            lemma_running_max_grows(track, n - 1, n - 1);
        }
        let before = running_max(track, n - 1);
        let v = track[n - 1].1;
        if before.less(v) {
            lemma_positive(before, v);
            order::lemma_amounts_are_ordered(before, v);
        }
    }
}

} // verus!
