//! Quadrilateral fit to a closed contour: Douglas-Peucker simplification, then
//! convexity, winding and size checks.
use vstd::arithmetic::power2;
use vstd::prelude::*;
use vstd::slice::slice_subrange;

use crate::contour;
use crate::double;
use crate::double::Double;
use crate::rounding;

verus! {

/// Minimum quad side (14 px): the 6x6 grid needs enough resolution to sample. The
/// bits of 14.0.
pub const MIN_SIDE: u64 = 0x402c_0000_0000_0000;

/// Chords and turns below this count as none: the bits of 1e-9.
pub const NEGLIGIBLE: u64 = 0x3e11_2e0b_e826_d695;

/// How far a chain may deviate from its chord, as a fraction of the perimeter
/// (ArUco-style): the bits of 0.03.
pub const SIMPLIFY_FRACTION: u64 = 0x3f9e_b851_eb85_1eb8;

/// Squared distance of two points.
pub open spec fn dist2(p: (int, int), q: (int, int)) -> int {
    (p.0 - q.0) * (p.0 - q.0) + (p.1 - q.1) * (p.1 - q.1)
}

/// Cross product of `q - p` and `s - r`.
pub open spec fn cross(p: (int, int), q: (int, int), r: (int, int), s: (int, int)) -> int {
    (q.0 - p.0) * (s.1 - r.1) - (q.1 - p.1) * (s.0 - r.0)
}

/// The step from one point to another, as doubles.
pub open spec fn step(p: (int, int), q: (int, int)) -> (Double, Double) {
    (
        double::difference(double::whole(q.0), double::whole(p.0)),
        double::difference(double::whole(q.1), double::whole(p.1)),
    )
}

/// Length of a step.
pub open spec fn length(u: (Double, Double)) -> Double {
    double::root(double::sum(double::product(u.0, u.0), double::product(u.1, u.1)))
}

/// Cross product of two steps.
pub open spec fn rounded_cross(u: (Double, Double), v: (Double, Double)) -> Double {
    double::difference(double::product(u.0, v.1), double::product(u.1, v.0))
}

/// The last of the points `pts[..n]` that are farthest from `c`.
pub open spec fn last_farthest(pts: Seq<(int, int)>, c: (int, int), n: int) -> int
    decreases n,
{
    if n <= 1 {
        0
    } else {
        let best = last_farthest(pts, c, n - 1);
        if dist2(c, pts[n - 1]) >= dist2(c, pts[best]) {
            n - 1
        } else {
            best
        }
    }
}

/// How far inner point `i` of an open chain is off the chord, or off the chain's
/// first point where its ends coincide.
pub open spec fn deviation(chain: Seq<(int, int)>, i: int) -> Double {
    let chord = step(chain[0], chain.last());
    let from = step(chain[0], chain[i]);
    if length(chord).less(Double { bits: NEGLIGIBLE }) {
        length(from)
    } else {
        double::quotient(double::absolute(rounded_cross(from, chord)), length(chord))
    }
}

/// The first of the inner points `chain[1..n]` that deviate most.
pub open spec fn first_peak(chain: Seq<(int, int)>, n: int) -> int
    decreases n,
{
    if n <= 2 {
        1
    } else {
        let best = first_peak(chain, n - 1);
        if deviation(chain, best).less(deviation(chain, n - 1)) {
            n - 1
        } else {
            best
        }
    }
}

/// The point that deviates most is an inner point.
pub proof fn lemma_first_peak_bounds(chain: Seq<(int, int)>, n: int)
    requires
        n >= 2,
    ensures
        1 <= first_peak(chain, n) < n,
    decreases n,
{
    if n > 2 {
        lemma_first_peak_bounds(chain, n - 1);
    }
}

/// No inner point is farther off than the one that deviates most.
pub proof fn lemma_first_peak_is_maximal(chain: Seq<(int, int)>, n: int, i: int)
    requires
        1 <= i < n,
        forall|k: int| 1 <= k < n ==> !(#[trigger] deviation(chain, k)).nan(),
    ensures
        deviation(chain, i).at_most(deviation(chain, first_peak(chain, n))),
    decreases n,
{
    if n > 2 {
        lemma_first_peak_bounds(chain, n - 1);
        if i < n - 1 {
            lemma_first_peak_is_maximal(chain, n - 1, i);
        }
    }
}

/// Douglas-Peucker simplification of an open chain: split at the point that
/// deviates most for as long as it is off by more than `tol`, else keep the two ends.
pub open spec fn simplified(tol: Double, chain: Seq<(int, int)>) -> Seq<
    (int, int),
>
    decreases chain.len(),
{
    if chain.len() <= 2 {
        chain
    } else {
        let peak = first_peak(chain, chain.len() - 1);
        proof {
            lemma_first_peak_bounds(chain, chain.len() - 1);
        }
        if tol.less(deviation(chain, peak)) {
            simplified(tol, chain.subrange(0, peak + 1)).drop_last() + simplified(tol,
                chain.subrange(peak, chain.len() as int),
            )
        } else {
            seq![chain[0], chain.last()]
        }
    }
}

/// Points a fit can work on.
pub open spec fn is_drawable(pixels: Seq<[i32; 2]>) -> bool {
    forall|i: int| 0 <= i < pixels.len() ==> is_on_canvas(#[trigger] pixels[i])
}

/// A point with no negative coordinate.
pub open spec fn is_on_canvas(p: [i32; 2]) -> bool {
    0 <= p[0] && 0 <= p[1]
}

fn distance_squared(a: [i32; 2], b: [i32; 2]) -> (d: u64)
    requires
        is_on_canvas(a),
        is_on_canvas(b),
    ensures
        d == dist2((a[0] as int, a[1] as int), (b[0] as int, b[1] as int)),
{
    let dx: i64 = (a[0] - b[0]) as i64;
    let dy: i64 = (a[1] - b[1]) as i64;
    assert(0 <= dx * dx <= 0x7fff_ffff * 0x7fff_ffff) by (nonlinear_arith)
        requires
            -0x7fff_ffff <= dx <= 0x7fff_ffff,
    ;
    assert(0 <= dy * dy <= 0x7fff_ffff * 0x7fff_ffff) by (nonlinear_arith)
        requires
            -0x7fff_ffff <= dy <= 0x7fff_ffff,
    ;
    (dx * dx + dy * dy) as u64
}

/// The step from one pixel to another.
fn pixel_step(a: [i32; 2], b: [i32; 2]) -> (u: (Double, Double))
    requires
        is_on_canvas(a),
        is_on_canvas(b),
    ensures
        u == step((a[0] as int, a[1] as int), (b[0] as int, b[1] as int)),
{
    (
        Double::from_count(b[0] as u64).minus(&Double::from_count(a[0] as u64)),
        Double::from_count(b[1] as u64).minus(&Double::from_count(a[1] as u64)),
    )
}

fn step_length(u: &(Double, Double)) -> (d: Double)
    ensures
        d == length(*u),
{
    u.0.times(&u.0).plus(&u.1.times(&u.1)).sqrt()
}

fn step_cross(u: &(Double, Double), v: &(Double, Double)) -> (d: Double)
    ensures
        d == rounded_cross(*u, *v),
{
    u.0.times(&v.1).minus(&u.1.times(&v.0))
}

/// Length of the first `n` steps of a closed contour.
pub open spec fn length_of(pts: Seq<(int, int)>, n: int) -> Double
    decreases n,
{
    if n <= 0 {
        Double { bits: 0 }
    } else {
        double::sum(
            length_of(pts, n - 1),
            double::root(double::nearest(dist2(pts[n - 1], pts[n % pts.len() as int]))),
        )
    }
}

/// How far a chain of a closed contour may deviate from its chord.
pub open spec fn tolerance(pts: Seq<(int, int)>) -> Double {
    double::product(Double { bits: SIMPLIFY_FRACTION }, length_of(pts, pts.len() as int))
}

/// How far a chain of a closed contour may deviate from its chord.
fn contour_tolerance(pixels: &[[i32; 2]]) -> (tol: Double)
    requires
        is_drawable(pixels@),
    ensures
        tol == tolerance(contour::points(pixels@)),
{
    let ghost pts = contour::points(pixels@);
    let mut perimeter: Double = Double::from_bits(0);
    let n: usize = pixels.len();
    let mut i: usize = 0;
    while i < n
        invariant
            n == pixels@.len(),
            i <= n,
            is_drawable(pixels@),
            pts == contour::points(pixels@),
            perimeter == length_of(pts, i as int),
        decreases n - i,
    {
        let d: u64 = distance_squared(pixels[i], pixels[(i + 1) % n]);
        assert(d == dist2(pts[i as int], pts[(i + 1) % pts.len() as int]));
        perimeter = perimeter.plus(&Double::from_whole(d).sqrt());
        i = i + 1;
    }
    Double::from_bits(SIMPLIFY_FRACTION).times(&perimeter)
}

/// Index of the last contour point farthest from `c`.
fn farthest(pixels: &[[i32; 2]], c: [i32; 2]) -> (best: usize)
    requires
        pixels@.len() > 0,
        is_drawable(pixels@),
        is_on_canvas(c),
    ensures
        best < pixels@.len(),
        best == last_farthest(
            contour::points(pixels@),
            (c[0] as int, c[1] as int),
            pixels@.len() as int,
        ),
{
    let ghost pts = contour::points(pixels@);
    let ghost from = (c[0] as int, c[1] as int);
    let mut best: usize = 0;
    let mut best_d: u64 = distance_squared(c, pixels[0]);
    let mut i: usize = 1;
    while i < pixels.len()
        invariant
            1 <= i <= pixels@.len(),
            is_drawable(pixels@),
            is_on_canvas(c),
            pts == contour::points(pixels@),
            from == (c[0] as int, c[1] as int),
            best < pixels@.len(),
            best == last_farthest(pts, from, i as int),
            best_d == dist2(from, pts[best as int]),
        decreases pixels@.len() - i,
    {
        let d: u64 = distance_squared(c, pixels[i]);
        assert(d == dist2(from, pts[i as int]));
        if d >= best_d {
            best = i;
            best_d = d;
        }
        i = i + 1;
    }
    best
}

/// Douglas-Peucker on an open chain; appends the simplified points, the
/// chain's first and last point among them.
pub fn douglas_peucker(
    chain: &[[i32; 2]],
    tol: Double,
    out: &mut Vec<[i32; 2]>,
)
    requires
        is_drawable(chain@),
    ensures
        contour::points(final(out)@) == contour::points(old(out)@) + simplified(tol,
            contour::points(chain@),
        ),
        is_drawable(old(out)@) ==> is_drawable(final(out)@),
    decreases chain@.len(),
{
    let ghost pts = contour::points(chain@);
    let ghost before = contour::points(out@);
    let n: usize = chain.len();
    if n <= 2 {
        out.extend_from_slice(chain);
        assert(contour::points(out@) =~= before + pts);
        return ;
    }
    let first: [i32; 2] = chain[0];
    let last: [i32; 2] = chain[n - 1];
    let chord: (Double, Double) = pixel_step(first, last);
    let chord_length: Double = step_length(&chord);
    let folded: bool = chord_length.lt(&Double::from_bits(NEGLIGIBLE));
    let mut peak: usize = 1;
    let mut peak_d: Double = Double::from_bits(0);
    let mut i: usize = 1;
    while i < n - 1
        invariant
            n == chain@.len(),
            n > 2,
            1 <= i <= n - 1,
            is_drawable(chain@),
            pts == contour::points(chain@),
            first == chain@[0],
            chord == step(pts[0], pts.last()),
            chord_length == length(chord),
            folded == chord_length.less(Double { bits: NEGLIGIBLE }),
            1 <= peak < n - 1,
            i > 1 ==> peak == first_peak(pts, i as int),
            i > 1 ==> peak_d == deviation(pts, peak as int),
        decreases n - i,
    {
        let from: (Double, Double) = pixel_step(first, chain[i]);
        assert(from == step(pts[0], pts[i as int]));
        let d: Double = if folded {
            step_length(&from)
        } else {
            step_cross(&from, &chord).abs().over(&chord_length)
        };
        assert(d == deviation(pts, i as int));
        if i == 1 || peak_d.lt(&d) {
            peak = i;
            peak_d = d;
        }
        i = i + 1;
    }
    if tol.lt(&peak_d) {
        let left = slice_subrange(chain, 0, peak + 1);
        let right = slice_subrange(chain, peak, n);
        proof {
            assert(contour::points(left@) =~= pts.subrange(0, peak + 1));
            assert(contour::points(right@) =~= pts.subrange(peak as int, n as int));
            lemma_simplified_is_not_empty(tol, pts.subrange(0, peak + 1));
        }
        douglas_peucker(left, tol, out);
        let ghost middle = contour::points(out@);
        // shared vertex
        out.pop();
        proof {
            assert(contour::points(out@) =~= middle.drop_last());
            assert(middle.drop_last() =~= before + simplified(tol, pts.subrange(0, peak
                + 1)).drop_last());
        }
        douglas_peucker(right, tol, out);
        proof {
            assert(tol.less(deviation(pts, peak as int)));
            assert(contour::points(out@) =~= before + simplified(tol, pts));
        }
    } else {
        out.push(first);
        out.push(last);
        proof {
            assert(!tol.less(deviation(pts, peak as int)));
            assert(contour::points(out@) =~= before + simplified(tol, pts));
        }
    }
}

proof fn lemma_simplified_is_not_empty(tol: Double, chain: Seq<(int, int)>)
    requires
        chain.len() > 0,
    ensures
        simplified(tol, chain).len() > 0,
    decreases chain.len(),
{
    if chain.len() > 2 {
        let peak = first_peak(chain, chain.len() - 1);
        lemma_first_peak_bounds(chain, chain.len() - 1);
        lemma_simplified_is_not_empty(tol, chain.subrange(0, peak + 1));
        lemma_simplified_is_not_empty(tol, chain.subrange(peak, chain.len() as int));
    }
}

/// The polygon a closed contour simplifies to: split at the point farthest
/// from the first one and the point farthest from that, both halves simplified.
pub open spec fn polygon(tol: Double, pts: Seq<(int, int)>) -> Seq<(int, int)> {
    let n = pts.len() as int;
    let i1 = last_farthest(pts, pts[0], n);
    let i2 = last_farthest(pts, pts[i1], n);
    let a = if i1 <= i2 {
        i1
    } else {
        i2
    };
    let b = if i1 <= i2 {
        i2
    } else {
        i1
    };
    simplified(tol, pts.subrange(a, b + 1)).drop_last() + simplified(tol,
        pts.subrange(b, n) + pts.subrange(0, a + 1),
    ).drop_last()
}

/// Turn of a quad at corner `i + 1`; positive is clockwise on screen (y down).
pub open spec fn turn(q: Seq<(int, int)>, i: int) -> int {
    cross(q[i], q[(i + 1) % 4], q[(i + 1) % 4], q[(i + 2) % 4])
}

/// All four turns are clockwise.
pub open spec fn is_clockwise(q: Seq<(int, int)>) -> bool {
    q.len() == 4 && turn(q, 0) > 0 && turn(q, 1) > 0 && turn(q, 2) > 0 && turn(q, 3) > 0
}

/// All four turns are counter-clockwise.
pub open spec fn is_counter_clockwise(q: Seq<(int, int)>) -> bool {
    q.len() == 4 && turn(q, 0) < 0 && turn(q, 1) < 0 && turn(q, 2) < 0 && turn(q, 3) < 0
}

/// The same quad walked the other way round.
pub open spec fn reversed(q: Seq<(int, int)>) -> Seq<(int, int)> {
    seq![q[0], q[3], q[2], q[1]]
}

/// Turn of a quad at corner `i + 1`, as doubles give it.
pub open spec fn rounded_turn(q: Seq<(int, int)>, i: int) -> Double {
    rounded_cross(step(q[i], q[(i + 1) % 4]), step(q[(i + 1) % 4], q[(i + 2) % 4]))
}

/// No turn of the quad is negligible, and each has this sign.
pub open spec fn is_convex(q: Seq<(int, int)>, clockwise: bool) -> bool {
    q.len() == 4 && forall|i: int|
        0 <= i < 4 ==> turns(#[trigger] rounded_turn(q, i), clockwise)
}

/// A turn that is not negligible, clockwise or counter-clockwise.
pub open spec fn turns(turn: Double, clockwise: bool) -> bool {
    !double::absolute(turn).less(Double { bits: NEGLIGIBLE }) && if clockwise {
        (Double { bits: 0 }).less(turn)
    } else {
        turn.less(Double { bits: 0 })
    }
}

/// Every side of the quad is long enough to sample.
pub open spec fn is_resolved(q: Seq<(int, int)>) -> bool {
    forall|i: int|
        0 <= i < 4 ==> !length(step(#[trigger] q[(i + 1) % 4], q[i])).less(
            Double { bits: MIN_SIDE },
        )
}

/// The quad fitted to a closed contour, clockwise on screen, if the contour
/// simplifies to exactly four convex, well-separated vertices.
pub open spec fn quad_of(pts: Seq<(int, int)>) -> Option<
    Seq<(int, int)>,
> {
    let poly = polygon(tolerance(pts), pts);
    if pts.len() == 0 {
        None
    } else if is_convex(poly, true) && is_resolved(poly) {
        Some(poly)
    } else if is_convex(poly, false) && is_resolved(reversed(poly)) {
        Some(reversed(poly))
    } else {
        None
    }
}

/// Walking the other way round reverses every turn.
proof fn lemma_reversed_turns(q: Seq<(int, int)>)
    requires
        is_counter_clockwise(q),
    ensures
        is_clockwise(reversed(q)),
{
    let r = reversed(q);
    lemma_turn_reverses(q[0], q[3], q[2]);
    lemma_turn_reverses(q[3], q[2], q[1]);
    lemma_turn_reverses(q[2], q[1], q[0]);
    lemma_turn_reverses(q[1], q[0], q[3]);
    assert(turn(r, 0) == -turn(q, 2));
    assert(turn(r, 1) == -turn(q, 1));
    assert(turn(r, 2) == -turn(q, 0));
    assert(turn(r, 3) == -turn(q, 3));
}

proof fn lemma_turn_reverses(a: (int, int), b: (int, int), c: (int, int))
    ensures
        cross(a, b, b, c) == -cross(c, b, b, a),
{
    let (ux, uy, vx, vy) = (b.0 - a.0, b.1 - a.1, c.0 - b.0, c.1 - b.1);
    assert(ux * vy - uy * vx == -((-vx) * (-uy) - (-vy) * (-ux))) by (nonlinear_arith);
    assert(b.0 - c.0 == -vx && b.1 - c.1 == -vy && a.0 - b.0 == -ux && a.1 - b.1 == -uy);
}

/// A turn that doubles show is a turn: rounding does not reverse it.
proof fn lemma_turn_is_real(p: (int, int), q: (int, int), r: (int, int), clockwise: bool)
    requires
        0 <= p.0 <= i32::MAX,
        0 <= p.1 <= i32::MAX,
        0 <= q.0 <= i32::MAX,
        0 <= q.1 <= i32::MAX,
        0 <= r.0 <= i32::MAX,
        0 <= r.1 <= i32::MAX,
        turns(rounded_cross(step(p, q), step(q, r)), clockwise),
    ensures
        clockwise ==> cross(p, q, q, r) > 0,
        !clockwise ==> cross(p, q, q, r) < 0,
{
    let (u, v) = (step(p, q), step(q, r));
    double::lemma_whole_difference(q.0, p.0);
    double::lemma_whole_difference(q.1, p.1);
    double::lemma_whole_difference(r.0, q.0);
    double::lemma_whole_difference(r.1, q.1);
    let (ux, uy, vx, vy) = (q.0 - p.0, q.1 - p.1, r.0 - q.0, r.1 - q.1);
    lemma_step_product(u.0, v.1, ux, vy);
    lemma_step_product(u.1, v.0, uy, vx);
    let (x, y) = (double::product(u.0, v.1), double::product(u.1, v.0));
    let t = rounded_cross(u, v);
    double::lemma_sum(x, y.opposite());
    double::lemma_opposite_value(y);
    let (m, n) = (ux * vy, uy * vx);
    let s = power2::pow2(1074) as int;
    let ss = s * s;
    power2::lemma_pow2_pos(1074);
    assert(ss > 0) by (nonlinear_arith)
        requires
            ss == s * s,
            s > 0,
    ;
    assert(crate::magnitude::units(0) == 0) by (nonlinear_arith);
    if m <= n {
        assert(m * ss <= n * ss) by (nonlinear_arith)
            requires
                m <= n,
                ss > 0,
        ;
        double::lemma_product_monotone(u.0, v.1, u.1, v.0);
        assert(x.value() + y.opposite().value() <= 0);
    }
    if n <= m {
        assert(n * ss <= m * ss) by (nonlinear_arith)
            requires
                n <= m,
                ss > 0,
        ;
        double::lemma_product_monotone(u.1, v.0, u.0, v.1);
        assert(x.value() + y.opposite().value() >= 0);
    }
    crate::magnitude::lemma_units_nonnegative(t.magnitude());
}

/// The product of two whole steps, exactly and as a double.
proof fn lemma_step_product(a: Double, b: Double, m: int, n: int)
    requires
        a.finite(),
        b.finite(),
        a.value() == m * power2::pow2(1074),
        b.value() == n * power2::pow2(1074),
        -i32::MAX <= m <= i32::MAX,
        -i32::MAX <= n <= i32::MAX,
    ensures
        double::product(a, b).finite(),
        a.value() * b.value() == (m * n) * (power2::pow2(1074) * power2::pow2(1074)),
{
    let s = power2::pow2(1074) as int;
    assert((m * s) * (n * s) == (m * n) * (s * s)) by (nonlinear_arith);
    rounding::lemma_scales();
    rounding::lemma_parts(a);
    rounding::lemma_parts(b);
    let (x, y) = (rounding::real_of(a), rounding::real_of(b));
    let (g, h, c) = (m as real, n as real, rounding::unit_count());
    assert(x == g && y == h) by (nonlinear_arith)
        requires
            x * c == (m * s) as real,
            y * c == (n * s) as real,
            c == s as real,
            g == m as real,
            h == n as real,
            c > 0real,
    ;
    assert(-4611686018427387904real <= g * h <= 4611686018427387904real) by (nonlinear_arith)
        requires
            -2147483647real <= g <= 2147483647real,
            -2147483647real <= h <= 2147483647real,
    ;
    rounding::lemma_product(a, b);
}

/// Simplification keeps a subset of the chain's points.
proof fn lemma_simplified_keeps_points(
    tol: Double,
    chain: Seq<(int, int)>,
    i: int,
)
    requires
        0 <= i < simplified(tol, chain).len(),
    ensures
        chain.contains(simplified(tol, chain)[i]),
    decreases chain.len(),
{
    if chain.len() <= 2 {
        assert(chain[i] == simplified(tol, chain)[i]);
    } else {
        let peak = first_peak(chain, chain.len() - 1);
        lemma_first_peak_bounds(chain, chain.len() - 1);
        if tol.less(deviation(chain, peak)) {
            let left = chain.subrange(0, peak + 1);
            let right = chain.subrange(peak, chain.len() as int);
            let k = simplified(tol, left).len() - 1;
            lemma_simplified_is_not_empty(tol, left);
            if i < k {
                lemma_simplified_keeps_points(tol, left, i);
                let j = choose|j: int| 0 <= j < left.len() && left[j] == simplified(tol, left)[i];
                assert(chain[j] == simplified(tol, chain)[i]);
            } else {
                lemma_simplified_keeps_points(tol, right, i - k);
                let j = choose|j: int|
                    0 <= j < right.len() && right[j] == simplified(tol, right)[i - k];
                assert(chain[peak + j] == simplified(tol, chain)[i]);
            }
        } else {
            assert(chain[0] == chain.first());
        }
    }
}

proof fn lemma_last_farthest_bounds(pts: Seq<(int, int)>, c: (int, int), n: int)
    requires
        n >= 1,
    ensures
        0 <= last_farthest(pts, c, n) < n,
    decreases n,
{
    if n > 1 {
        lemma_last_farthest_bounds(pts, c, n - 1);
    }
}

/// Every vertex of the polygon is a contour point.
proof fn lemma_polygon_keeps_points(
    tol: Double,
    pts: Seq<(int, int)>,
    i: int,
)
    requires
        pts.len() > 0,
        0 <= i < polygon(tol, pts).len(),
    ensures
        pts.contains(polygon(tol, pts)[i]),
{
    let n = pts.len() as int;
    let i1 = last_farthest(pts, pts[0], n);
    let i2 = last_farthest(pts, pts[i1], n);
    lemma_last_farthest_bounds(pts, pts[0], n);
    lemma_last_farthest_bounds(pts, pts[i1], n);
    let a = if i1 <= i2 {
        i1
    } else {
        i2
    };
    let b = if i1 <= i2 {
        i2
    } else {
        i1
    };
    let one = pts.subrange(a, b + 1);
    let two = pts.subrange(b, n) + pts.subrange(0, a + 1);
    let k = simplified(tol, one).len() - 1;
    lemma_simplified_is_not_empty(tol, one);
    lemma_simplified_is_not_empty(tol, two);
    if i < k {
        lemma_simplified_keeps_points(tol, one, i);
        let j = choose|j: int| 0 <= j < one.len() && one[j] == simplified(tol, one)[i];
        assert(pts[a + j] == polygon(tol, pts)[i]);
    } else {
        lemma_simplified_keeps_points(tol, two, i - k);
        let j = choose|j: int| 0 <= j < two.len() && two[j] == simplified(tol, two)[i - k];
        if j < n - b {
            assert(pts[b + j] == polygon(tol, pts)[i]);
        } else {
            assert(pts[j - (n - b)] == polygon(tol, pts)[i]);
        }
    }
}

/// The simplified polygon of a closed contour.
fn contour_polygon(pixels: &[[i32; 2]], tol: Double) -> (poly: Vec<[i32; 2]>)
    requires
        pixels@.len() > 0,
        is_drawable(pixels@),
    ensures
        contour::points(poly@) == polygon(tol, contour::points(pixels@)),
        is_drawable(poly@),
{
    let ghost pts = contour::points(pixels@);
    let n: usize = pixels.len();
    let i1: usize = farthest(pixels, pixels[0]);
    let i2: usize = farthest(pixels, pixels[i1]);
    let a: usize = if i1 <= i2 {
        i1
    } else {
        i2
    };
    let b: usize = if i1 <= i2 {
        i2
    } else {
        i1
    };
    let mut poly: Vec<[i32; 2]> = Vec::new();
    let chain1 = slice_subrange(pixels, a, b + 1);
    let mut chain2: Vec<[i32; 2]> = Vec::new();
    chain2.extend_from_slice(slice_subrange(pixels, b, n));
    chain2.extend_from_slice(slice_subrange(pixels, 0, a + 1));
    let ghost one = pts.subrange(a as int, b + 1);
    let ghost two = pts.subrange(b as int, n as int) + pts.subrange(0, a + 1);
    proof {
        assert(contour::points(chain1@) =~= one);
        assert(contour::points(chain2@) =~= two);
        assert(contour::points(poly@) =~= Seq::<(int, int)>::empty());
        lemma_simplified_is_not_empty(tol, one);
        lemma_simplified_is_not_empty(tol, two);
    }
    douglas_peucker(chain1, tol, &mut poly);
    // chain end == chain2 start
    poly.pop();
    proof {
        assert(contour::points(poly@) =~= simplified(tol, one).drop_last());
    }
    douglas_peucker(chain2.as_slice(), tol, &mut poly);
    let ghost before = contour::points(poly@);
    // chain2 end == chain1 start
    poly.pop();
    proof {
        assert(contour::points(poly@) =~= before.drop_last());
        assert(contour::points(poly@) =~= polygon(tol, pts));
    }
    poly
}

/// Do all four turns go this way round?
fn quad_turns(poly: &Vec<[i32; 2]>, clockwise: bool) -> (r: bool)
    requires
        poly@.len() == 4,
        is_drawable(poly@),
    ensures
        r == is_convex(contour::points(poly@), clockwise),
{
    let ghost p = contour::points(poly@);
    let mut i: usize = 0;
    while i < 4
        invariant
            i <= 4,
            poly@.len() == 4,
            is_drawable(poly@),
            p == contour::points(poly@),
            forall|k: int| 0 <= k < i ==> turns(#[trigger] rounded_turn(p, k), clockwise),
        decreases 4 - i,
    {
        let u: (Double, Double) = pixel_step(poly[i], poly[(i + 1) % 4]);
        let v: (Double, Double) = pixel_step(poly[(i + 1) % 4], poly[(i + 2) % 4]);
        let turn: Double = step_cross(&u, &v);
        assert(turn == rounded_turn(p, i as int));
        let zero: Double = Double::from_bits(0);
        if turn.abs().lt(&Double::from_bits(NEGLIGIBLE)) || !(if clockwise {
            zero.lt(&turn)
        } else {
            turn.lt(&zero)
        }) {
            assert(!turns(rounded_turn(p, i as int), clockwise));
            return false;
        }
        i = i + 1;
    }
    true
}

/// A quad whose turns doubles show to go one way round turns that way.
proof fn lemma_convex_turns(poly: Seq<[i32; 2]>, clockwise: bool)
    requires
        is_drawable(poly),
        is_convex(contour::points(poly), clockwise),
    ensures
        clockwise ==> is_clockwise(contour::points(poly)),
        !clockwise ==> is_counter_clockwise(contour::points(poly)),
{
    let p = contour::points(poly);
    assert(is_on_canvas(poly[0]) && is_on_canvas(poly[1]) && is_on_canvas(poly[2]) && is_on_canvas(
        poly[3],
    ));
    assert(turns(rounded_turn(p, 0), clockwise));
    assert(turns(rounded_turn(p, 1), clockwise));
    assert(turns(rounded_turn(p, 2), clockwise));
    assert(turns(rounded_turn(p, 3), clockwise));
    lemma_turn_is_real(p[0], p[1], p[2], clockwise);
    lemma_turn_is_real(p[1], p[2], p[3], clockwise);
    lemma_turn_is_real(p[2], p[3], p[0], clockwise);
    lemma_turn_is_real(p[3], p[0], p[1], clockwise);
}

/// Fit a convex quadrilateral to a closed contour via Douglas-Peucker
/// (tolerance proportional to the perimeter). `None` unless the polygon
/// simplifies to exactly 4 convex, well-separated vertices; the vertices come
/// clockwise on screen.
pub fn fit_quad(pixels: &[[i32; 2]]) -> (quad: Option<
    [[i32; 2]; 4],
>)
    requires
        is_drawable(pixels@),
    ensures
        quad is Some <==> quad_of(contour::points(pixels@)) is Some,
        quad matches Some(q) ==> quad_of(contour::points(pixels@)) == Some(
            contour::points(q@),
        ),
        quad matches Some(q) ==> is_clockwise(contour::points(q@)) && is_resolved(
            contour::points(q@),
        ),
        quad matches Some(q) ==> forall|i: int|
            0 <= i < 4 ==> contour::points(pixels@).contains(#[trigger] contour::points(q@)[i]),
{
    if pixels.len() == 0 {
        return None;
    }
    let tol: Double = contour_tolerance(pixels);
    let poly: Vec<[i32; 2]> = contour_polygon(pixels, tol);
    let ghost pts = contour::points(pixels@);
    let ghost p = contour::points(poly@);
    if poly.len() != 4 {
        return None;
    }
    let clockwise: bool = quad_turns(&poly, true);
    let quad: [[i32; 2]; 4] = if clockwise {
        [poly[0], poly[1], poly[2], poly[3]]
    } else if quad_turns(&poly, false) {
        [poly[0], poly[3], poly[2], poly[1]]
    } else {
        return None;
    };
    let ghost q = contour::points(quad@);
    proof {
        lemma_convex_turns(poly@, clockwise);
        assert(clockwise ==> q =~= p);
        assert(!clockwise ==> q =~= reversed(p));
        assert(turns(rounded_turn(p, 0), clockwise) && !turns(rounded_turn(p, 0), !clockwise));
        if !clockwise {
            lemma_reversed_turns(p);
        }
        assert forall|i: int| 0 <= i < 4 implies pts.contains(#[trigger] q[i]) by {
            if clockwise {
                lemma_polygon_keeps_points(tol, pts, i);
            } else {
                lemma_polygon_keeps_points(tol, pts, (4 - i) % 4);
            }
        }
    }
    // Reject slivers and under-resolved quads.
    let mut i: usize = 0;
    while i < 4
        invariant
            i <= 4,
            q == contour::points(quad@),
            is_drawable(quad@),
            forall|k: int|
                0 <= k < i ==> !length(step(#[trigger] q[(k + 1) % 4], q[k])).less(
                    Double { bits: MIN_SIDE },
                ),
        ensures
            i == 4 || (i < 4 && length(step(q[(i + 1) % 4], q[i as int])).less(
                Double { bits: MIN_SIDE },
            )),
        decreases 4 - i,
    {
        let side: Double = step_length(&pixel_step(quad[(i + 1) % 4], quad[i]));
        assert(side == length(step(q[(i + 1) % 4], q[i as int])));
        if side.lt(&Double::from_bits(MIN_SIDE)) {
            break ;
        }
        i = i + 1;
    }
    if i < 4 {
        assert(!is_resolved(q));
        return None;
    }
    Some(quad)
}

} // verus!
