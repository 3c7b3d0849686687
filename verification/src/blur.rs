//! Edge blur of a detected marker's border. The luma profile along the outward
//! normal is a black-to-white step; the ratio of its contrast to its largest
//! gradient measures how many pixels the transition is smeared over.
use vstd::prelude::*;

use crate::closure;
use crate::closure::{clamp, Quad};
use crate::double;
use crate::double::Double;
use crate::edge::Point;
use crate::sample::Luma;
use crate::sorting;
use crate::sorting::sort_by_key;

verus! {

/// The bits of 0.3, where the first profile of an edge is.
pub const EARLY: u64 = 0x3fd3_3333_3333_3333;

/// The bits of 0.5.
pub const MIDDLE: u64 = 0x3fe0_0000_0000_0000;

/// The bits of 0.7.
pub const LATE: u64 = 0x3fe6_6666_6666_6666;

/// The bits of 1e-9.
pub const TINY: u64 = 0x3e11_2e0b_e826_d695;

/// The bits of 2.0.
pub const TWO: u64 = 0x4000_0000_0000_0000;

/// The bits of 1.0.
pub const ONE: u64 = 0x3ff0_0000_0000_0000;

/// The bits of 3.0, half the profile.
pub const REACH: u64 = 0x4008_0000_0000_0000;

/// The bits of 4.0.
pub const FOUR: u64 = 0x4010_0000_0000_0000;

/// Largest blur width (px): the bits of 6.0.
pub const MAX_BLUR: u64 = 0x4018_0000_0000_0000;

/// Least contrast of a measurable edge: the bits of 20.0.
pub const MIN_EDGE_CONTRAST: u64 = 0x4034_0000_0000_0000;

/// Blur width of a sharp edge (px): the bits of 2.0.
pub const NOMINAL_BLUR: u64 = 0x4000_0000_0000_0000;

/// Samples of a profile.
pub const SAMPLES: usize = 7;

/// Where profile `j` of an edge is, as a fraction of it.
pub open spec fn fraction_of(j: int) -> Double {
    if j == 0 {
        Double { bits: EARLY }
    } else if j == 1 {
        Double { bits: MIDDLE }
    } else {
        Double { bits: LATE }
    }
}

/// Mean of one coordinate of the corners.
pub open spec fn middle_of(q: Quad, axis: int) -> Double {
    (Double { bits: 0 } + q[0][axis] + q[1][axis] + q[2][axis] + q[3][axis]).per(
        Double { bits: FOUR },
    )
}

/// A point on the edge from `a` to `b`.
pub open spec fn on_edge(a: Point, b: Point, frac: Double) -> Point {
    [a[0] + (b[0] - a[0]) * frac, a[1] + (b[1] - a[1]) * frac]
}

/// Unit normal of the edge from `a` to `b` that points away from `centre` at
/// `m`; none when the edge has no length.
pub open spec fn outward(a: Point, b: Point, m: Point, centre: Point) -> Option<Point> {
    let nx = (b[1] - a[1]).opposite();
    let ny = b[0] - a[0];
    let len = (nx * nx + ny * ny).root();
    let (ux, uy) = (nx.per(len), ny.per(len));
    if len.less(Double { bits: TINY }) {
        None
    } else if ((m[0] - centre[0]) * ux + (m[1] - centre[1]) * uy).less(Double { bits: 0 }) {
        Some([ux.opposite(), uy.opposite()])
    } else {
        Some([ux, uy])
    }
}

/// Sample `s` of the profile at `m` along `n`.
pub open spec fn profile_point(m: Point, n: Point, s: int) -> Point {
    let t = double::whole(s) - Double { bits: REACH };
    [m[0] + n[0] * t, m[1] + n[1] * t]
}

/// A point at least a pixel inside the frame.
pub open spec fn is_well_inside(p: Point, right: Double, bottom: Double) -> bool {
    let one = Double { bits: ONE };
    !p[0].less(one) && !p[1].less(one) && !right.less(p[0]) && !bottom.less(p[1])
}

/// Luma of sample `s`.
pub open spec fn profile_luma(
    luma: &Luma,
    m: Point,
    n: Point,
    s: int,
) -> Double {
    luma.at(profile_point(m, n, s))
}

/// Largest luma of the first `k` samples.
pub open spec fn profile_high(
    luma: &Luma,
    m: Point,
    n: Point,
    k: int,
) -> Double
    decreases k,
{
    if k <= 0 {
        Double { bits: 0xfff0_0000_0000_0000 }
    } else {
        double::larger(profile_high(luma, m, n, k - 1), profile_luma(luma, m, n, k - 1))
    }
}

/// Smallest luma of the first `k` samples.
pub open spec fn profile_low(
    luma: &Luma,
    m: Point,
    n: Point,
    k: int,
) -> Double
    decreases k,
{
    if k <= 0 {
        Double { bits: 0x7ff0_0000_0000_0000 }
    } else {
        double::smaller(profile_low(luma, m, n, k - 1), profile_luma(luma, m, n, k - 1))
    }
}

/// Largest of the first `k` steps.
pub open spec fn profile_step(
    luma: &Luma,
    m: Point,
    n: Point,
    k: int,
) -> Double
    decreases k,
{
    if k <= 0 {
        Double { bits: 0 }
    } else {
        double::larger(
            profile_step(luma, m, n, k - 1),
            (profile_luma(luma, m, n, k) - profile_luma(luma, m, n, k - 1)).size(),
        )
    }
}

/// Blur width of the profile at `m` along `n`; none when it leaves the frame or
/// shows no edge.
pub open spec fn profile_width(
    luma: &Luma,
    right: Double,
    bottom: Double,
    m: Point,
    n: Point,
) -> Option<Double> {
    let contrast = profile_high(luma, m, n, SAMPLES as int) - profile_low(
        luma,
        m,
        n,
        SAMPLES as int,
    );
    let step = profile_step(luma, m, n, SAMPLES - 1);
    if exists|s: int|
        0 <= s < SAMPLES && !is_well_inside(#[trigger] profile_point(m, n, s), right, bottom) {
        None
    } else if (Double { bits: MIN_EDGE_CONTRAST }).less(contrast) && (Double { bits: TINY }).less(
        step,
    ) {
        Some(
            closure::clamped(
                contrast.per(step),
                Double { bits: ONE },
                Double { bits: MAX_BLUR },
            ),
        )
    } else {
        None
    }
}

/// Blur width of profile `i` of a marker: three on each edge.
pub open spec fn width_at(
    luma: &Luma,
    right: Double,
    bottom: Double,
    q: Quad,
    i: int,
) -> Option<Double> {
    let (a, b) = (q[i / 3], q[(i / 3 + 1) % 4]);
    let m = on_edge(a, b, fraction_of(i % 3));
    match outward(a, b, m, [middle_of(q, 0), middle_of(q, 1)]) {
        None => None,
        Some(n) => profile_width(luma, right, bottom, m, n),
    }
}

/// Blur widths of the first `n` profiles.
pub open spec fn widths_before(
    luma: &Luma,
    right: Double,
    bottom: Double,
    q: Quad,
    n: int,
) -> Seq<(Double, ())>
    decreases n,
{
    if n <= 0 {
        Seq::empty()
    } else {
        match width_at(luma, right, bottom, q, n - 1) {
            Some(v) => widths_before(luma, right, bottom, q, n - 1).push((v, ())),
            None => widths_before(luma, right, bottom, q, n - 1),
        }
    }
}

/// Blur width of a marker's border: the median over its profiles.
pub open spec fn blur_of(
    luma: &Luma,
    right: Double,
    bottom: Double,
    q: Quad,
) -> Double {
    let widths = widths_before(luma, right, bottom, q, 12);
    if widths.len() == 0 {
        Double { bits: NOMINAL_BLUR }
    } else {
        sorting::sorted(widths)[widths.len() as int / 2].0
    }
}

fn measure_profile(
    luma: &Luma,
    right: &Double,
    bottom: &Double,
    m: &Point,
    n: &Point,
) -> (width: Option<Double>)
    requires
        luma.wf(),
    ensures
        width == profile_width(luma, *right, *bottom, *m, *n),
{
    let one: Double = Double::from_bits(ONE);
    let mut hi: Double = Double::from_bits(0xfff0_0000_0000_0000);
    let mut lo: Double = Double::from_bits(0x7ff0_0000_0000_0000);
    let mut step: Double = Double::from_bits(0);
    let mut last: Double = Double::from_bits(0);
    let mut s: usize = 0;
    while s < SAMPLES
        invariant
            luma.wf(),
            one == (Double { bits: ONE }),
            s <= SAMPLES,
            forall|i: int|
                0 <= i < s ==> is_well_inside(
                    #[trigger] profile_point(*m, *n, i),
                    *right,
                    *bottom,
                ),
            hi == profile_high(luma, *m, *n, s as int),
            lo == profile_low(luma, *m, *n, s as int),
            s == 0 ==> step == (Double { bits: 0 }),
            s > 0 ==> last == profile_luma(luma, *m, *n, s - 1),
            s > 0 ==> step == profile_step(luma, *m, *n, s - 1),
        decreases SAMPLES - s,
    {
        let t: Double = Double::from_count(s as u64) - Double::from_bits(REACH);
        let p: Point = [m[0] + n[0] * t, m[1] + n[1] * t];
        assert(p == profile_point(*m, *n, s as int));
        if p[0].lt(&one) || p[1].lt(&one) || right.lt(&p[0]) || bottom.lt(&p[1]) {
            return None;
        }
        let v: Double = luma.sample(&p);
        hi = hi.max(&v);
        lo = lo.min(&v);
        if s > 0 {
            step = step.max(&(v - last).abs());
        }
        last = v;
        s = s + 1;
    }
    let contrast: Double = hi - lo;
    if Double::from_bits(MIN_EDGE_CONTRAST).lt(&contrast) && Double::from_bits(TINY).lt(&step) {
        Some(clamp(contrast / step, one, Double::from_bits(MAX_BLUR)))
    } else {
        None
    }
}

fn outward_normal(a: &Point, b: &Point, m: &Point, centre: &Point) -> (n: Option<Point>)
    ensures
        n == outward(*a, *b, *m, *centre),
{
    let nx: Double = (b[1] - a[1]).negate();
    let ny: Double = b[0] - a[0];
    let len: Double = (nx * nx + ny * ny).sqrt();
    if len.lt(&Double::from_bits(TINY)) {
        return None;
    }
    let ux: Double = nx / len;
    let uy: Double = ny / len;
    if ((m[0] - centre[0]) * ux + (m[1] - centre[1]) * uy).lt(&Double::from_bits(0)) {
        Some([ux.negate(), uy.negate()])
    } else {
        Some([ux, uy])
    }
}

/// The last column or row, of `n`, that a profile is sampled up to.
pub open spec fn last_of(n: int) -> Double {
    double::whole(n) - Double { bits: TWO }
}

/// Edge blur width (px) of a detected marker's border: about 2 px when sharp,
/// more with motion or defocus blur. Unlike whole-frame sharpness it does not
/// depend on the content.
pub fn marker_edge_blur_px(luma: &Luma, q: &Quad) -> (width: Double)
    requires
        luma.wf(),
    ensures
        width == blur_of(luma, last_of(luma.width as int), last_of(luma.height as int), *q),
{
    let two: Double = Double::from_bits(TWO);
    let right: Double = Double::from_count(luma.width as u64) - two;
    let bottom: Double = Double::from_count(luma.height as u64) - two;
    let four: Double = Double::from_bits(FOUR);
    let zero: Double = Double::from_bits(0);
    let centre: Point = [
        (zero + q[0][0] + q[1][0] + q[2][0] + q[3][0]) / four,
        (zero + q[0][1] + q[1][1] + q[2][1] + q[3][1]) / four,
    ];
    let mut widths: Vec<(Double, ())> = Vec::new();
    let mut i: usize = 0;
    while i < 12
        invariant
            luma.wf(),
            centre == [middle_of(*q, 0), middle_of(*q, 1)],
            i <= 12,
            widths@ == widths_before(luma, right, bottom, *q, i as int),
            widths@.len() <= i,
        decreases 12 - i,
    {
        let a: Point = q[i / 3];
        let b: Point = q[(i / 3 + 1) % 4];
        let j: usize = i % 3;
        let frac: Double = if j == 0 {
            Double::from_bits(EARLY)
        } else if j == 1 {
            Double::from_bits(MIDDLE)
        } else {
            Double::from_bits(LATE)
        };
        let m: Point = [a[0] + (b[0] - a[0]) * frac, a[1] + (b[1] - a[1]) * frac];
        assert(m == on_edge(a, b, fraction_of(i as int % 3)));
        if let Some(n) = outward_normal(&a, &b, &m, &centre) {
            if let Some(v) = measure_profile(luma, &right, &bottom, &m, &n) {
                widths.push((v, ()));
            }
        }
        i = i + 1;
    }
    if widths.len() == 0 {
        return Double::from_bits(NOMINAL_BLUR);
    }
    let by_width: Vec<(Double, ())> = sort_by_key(&widths);
    by_width[widths.len() / 2].0
}

} // verus!
