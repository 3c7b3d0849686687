//! What finding the edges of a marker promises: an edge is found whichever side of it is
//! dark, and a corner is where two edges meet.
use vstd::arithmetic::power2;
use vstd::prelude::*;

use crate::double;
use crate::double::Double;
use crate::edge;
use crate::edge::{Line, Point};
use crate::fit_error;
use crate::ordinary;
use crate::rounding;
use crate::sample::Luma;
use crate::significand;

verus! {

proof fn lemma_square_of_opposite(d: Double)
    ensures
        d.opposite() * d.opposite() == d * d,
{
    double::lemma_product(d, d);
    double::lemma_product(d.opposite(), d.opposite());
    double::lemma_opposite_value(d);
    double::lemma_product_unique(
        d,
        d,
        double::product(d, d),
        double::product(d.opposite(), d.opposite()),
    );
}

/// The luma steps across an edge are the same in both frames, but for their sign: what is
/// dark in one is light in the other.
pub open spec fn are_opposite(f: &Luma, g: &Luma, a: Point, b: Point, k: int) -> bool {
    &&& f.width == g.width
    &&& f.height == g.height
    &&& forall|s: int|
        0 <= s < 10 ==> #[trigger] edge::luma_step(g, a, b, k, s) == edge::luma_step(
            f,
            a,
            b,
            k,
            s,
        ).opposite()
}

proof fn lemma_opposite_sums(f: &Luma, g: &Luma, a: Point, b: Point, k: int, n: int)
    requires
        are_opposite(f, g, a, b, k),
        n <= 10,
    ensures
        edge::weight_sum(g, a, b, k, n) == edge::weight_sum(f, a, b, k, n),
        edge::moment_sum(g, a, b, k, n) == edge::moment_sum(f, a, b, k, n),
    decreases n,
{
    if n > 0 {
        lemma_opposite_sums(f, g, a, b, k, n - 1);
        assert(edge::luma_step(g, a, b, k, n - 1) == edge::luma_step(
            f,
            a,
            b,
            k,
            n - 1,
        ).opposite());
        lemma_square_of_opposite(edge::luma_step(f, a, b, k, n - 1));
    }
}

/// An edge point is found where it is whether the edge goes from dark to light or from
/// light to dark.
pub proof fn law_edge_point_ignores_polarity(f: &Luma, g: &Luma, a: Point, b: Point, k: int)
    requires
        are_opposite(f, g, a, b, k),
    ensures
        edge::edge_point(g, a, b, k) == edge::edge_point(f, a, b, k),
{
    lemma_opposite_sums(f, g, a, b, k, 10);
    assert forall|s: int| 0 <= s < 11 implies edge::is_in_frame(
        g,
        #[trigger] edge::sample_point(a, b, k, s),
    ) == edge::is_in_frame(f, edge::sample_point(a, b, k, s)) by {}
    if exists|s: int|
        0 <= s < 11 && !edge::is_in_frame(f, #[trigger] edge::sample_point(a, b, k, s)) {
        let s = choose|s: int|
            0 <= s < 11 && !edge::is_in_frame(f, #[trigger] edge::sample_point(a, b, k, s));
        assert(!edge::is_in_frame(g, edge::sample_point(a, b, k, s)));
    }
}

/// `p` lies on the line, but for rounding.
pub open spec fn is_on_line(l: Line, p: Point) -> bool {
    rounding::within(
        rounding::real_of(l[0]) * rounding::real_of(p[0]) + rounding::real_of(l[1])
            * rounding::real_of(p[1]) + rounding::real_of(l[2]),
        0real,
        1real / 10000real,
    )
}

/// A line in a frame: the normal is no longer than 1, and the line is no farther away
/// than 2^14 px.
pub open spec fn is_line(l: Line) -> bool {
    &&& l[0].finite() && rounding::size(rounding::real_of(l[0])) <= 11real / 10real
    &&& l[1].finite() && rounding::size(rounding::real_of(l[1])) <= 11real / 10real
    &&& l[2].finite() && rounding::size(rounding::real_of(l[2])) <= 16384real
}

/// A rounding of a number of no more than 2^24.
proof fn lemma_part(x: real)
    requires
        0real <= x <= 16777216real,
    ensures
        0real <= rounding::unit() * x,
        100000000real * (rounding::unit() * x) <= 1real,
        100000000real * rounding::tiny() <= 1real,
{
    rounding::lemma_units_are_small();
    let u = rounding::unit();
    assert(0real <= u * x && u * x <= 16777216real * u) by (nonlinear_arith)
        requires
            0real <= x <= 16777216real,
            u > 0real,
    ;
}

/// A difference of two products.
proof fn lemma_minor(a: Double, b: Double, c: Double, d: Double, m: real)
    requires
        a.finite(),
        b.finite(),
        c.finite(),
        d.finite(),
        1real <= m <= 100000real,
        rounding::size(rounding::real_of(a) * rounding::real_of(b)) <= m,
        rounding::size(rounding::real_of(c) * rounding::real_of(d)) <= m,
    ensures
        ({
            let e = double::difference(double::product(a, b), double::product(c, d));
            e.finite() && rounding::within(
                rounding::real_of(e),
                rounding::real_of(a) * rounding::real_of(b) - rounding::real_of(c)
                    * rounding::real_of(d),
                m / 100000000000000real,
            )
        }),
{
    rounding::lemma_scales();
    let (p, q) = (
        rounding::real_of(a) * rounding::real_of(b),
        rounding::real_of(c) * rounding::real_of(d),
    );
    rounding::lemma_product(a, b);
    lemma_share(rounding::size(p), m);
    rounding::lemma_product(c, d);
    lemma_share(rounding::size(q), m);
    let (r, s) = (double::product(a, b), double::product(c, d));
    rounding::lemma_difference(r, s);
    lemma_share(rounding::size(rounding::real_of(r) - rounding::real_of(s)), 3real * m);
}

/// A rounding of a number of no more than `m`.
proof fn lemma_share(x: real, m: real)
    requires
        0real <= x <= m,
        1real <= m,
    ensures
        0real <= rounding::unit() * x,
        1000000000000000real * (rounding::unit() * x) <= m,
        1000000000000000real * rounding::tiny() <= m,
{
    rounding::lemma_units_are_small();
    let u = rounding::unit();
    assert(0real <= u * x && 1000000000000000real * (u * x) <= m) by (nonlinear_arith)
        requires
            0real <= x <= m,
            u * 4503599627370496real == 1real,
            u > 0real,
    ;
}

/// A coordinate of the point where lines meet.
proof fn lemma_coordinate(n: Double, det: Double)
    requires
        n.finite(),
        det.finite(),
        rounding::size(rounding::real_of(n)) <= 40000real,
        9real / 100real <= rounding::size(rounding::real_of(det)) <= 10real,
    ensures
        n.per(det).finite(),
        rounding::within(
            rounding::real_of(n.per(det)) * rounding::real_of(det),
            rounding::real_of(n),
            1real / 1000000real,
        ),
{
    rounding::lemma_scales();
    let (x, d) = (rounding::real_of(n), rounding::real_of(det));
    rounding::lemma_ratio(x, d);
    let q = x / d;
    fit_error::lemma_size_product(q, d);
    let (sq, sd) = (rounding::size(q), rounding::size(d));
    assert(500000real * sd >= 40000real);
    fit_error::lemma_cancel(sq, 500000real, sd);
    rounding::lemma_quotient(n, det);
    rounding::lemma_units_are_small();
    let u = rounding::unit();
    let e = rounding::real_of(n.per(det)) - q;
    let ed = e * d;
    fit_error::lemma_size_product(e, d);
    let se = rounding::size(e);
    let usq = u * sq;
    let sx = rounding::size(x);
    let usx = u * sx;
    assert(usq * sd == usx) by (nonlinear_arith)
        requires
            usq == u * sq,
            usx == u * sx,
            sq * sd == sx,
    ;
    lemma_part(sx);
    lemma_part(sq);
    let t = rounding::tiny();
    fit_error::lemma_scale_both(se, usq + t, sd);
    assert((usq + t) * sd == usq * sd + t * sd) by (nonlinear_arith);
    assert((q + e) * d == x + ed) by (nonlinear_arith)
        requires
            q * d == x,
            ed == e * d,
    ;
    lemma_tiny(sd, d);
}

proof fn lemma_tiny(sd: real, d: real)
    requires
        sd == rounding::size(d),
    ensures
        sd <= 100real ==> 100000000real * (rounding::tiny() * sd) <= 1real,
{
    rounding::lemma_units_are_small();
    let t = rounding::tiny();
    if sd <= 100real {
        assert(t * sd <= t * 100real) by (nonlinear_arith)
            requires
                0real <= sd <= 100real,
                t > 0real,
        ;
    }
}

/// Where two lines meet lies on both of them.
pub proof fn law_lines_meet_on_both(l1: Line, l2: Line)
    requires
        is_line(l1),
        is_line(l2),
        rounding::size(
            rounding::real_of(l1[0]) * rounding::real_of(l2[1]) - rounding::real_of(l2[0])
                * rounding::real_of(l1[1]),
        ) >= 1real / 10real,
        edge::intersection(l1, l2) is Some,
    ensures
        is_on_line(l1, edge::intersection(l1, l2)->0),
        is_on_line(l2, edge::intersection(l1, l2)->0),
{
    let (a1, b1, c1) = (
        rounding::real_of(l1[0]),
        rounding::real_of(l1[1]),
        rounding::real_of(l1[2]),
    );
    let (a2, b2, c2) = (
        rounding::real_of(l2[0]),
        rounding::real_of(l2[1]),
        rounding::real_of(l2[2]),
    );
    let h = 11real / 10real;
    fit_error::lemma_product_bound(a1, b2, h, h);
    fit_error::lemma_product_bound(a2, b1, h, h);
    fit_error::lemma_product_bound(b1, c2, h, 16384real);
    fit_error::lemma_product_bound(b2, c1, h, 16384real);
    fit_error::lemma_product_bound(a2, c1, h, 16384real);
    fit_error::lemma_product_bound(a1, c2, h, 16384real);
    lemma_minor(l1[0], l2[1], l2[0], l1[1], 2real);
    lemma_minor(l1[1], l2[2], l2[1], l1[2], 20000real);
    lemma_minor(l2[0], l1[2], l1[0], l2[2], 20000real);
    let det = edge::line_det(l1, l2);
    let nx = l1[1] * l2[2] - l2[1] * l1[2];
    let ny = l2[0] * l1[2] - l1[0] * l2[2];
    lemma_coordinate(nx, det);
    lemma_coordinate(ny, det);
    let p = edge::intersection(l1, l2)->0;
    let (x, y, d) = (rounding::real_of(p[0]), rounding::real_of(p[1]), rounding::real_of(det));
    let (ab, ba, bc, cb, ac, ca) = (a1 * b2, a2 * b1, b1 * c2, b2 * c1, a2 * c1, a1 * c2);
    let (fx, fy, det0) = (bc - cb, ac - ca, ab - ba);
    lemma_meets(a1, b1, c1, a2, b2, c2);
    lemma_on_line(a1, b1, c1, x, y, d, x * d - fx, y * d - fy, d - det0, fx, fy, det0);
    lemma_on_line(a2, b2, c2, x, y, d, x * d - fx, y * d - fy, d - det0, fx, fy, det0);
}

/// The minors of two lines give a point of both.
proof fn lemma_meets(a1: real, b1: real, c1: real, a2: real, b2: real, c2: real)
    ensures
        a1 * (b1 * c2 - b2 * c1) + b1 * (a2 * c1 - a1 * c2) + c1 * (a1 * b2 - a2 * b1) == 0real,
        a2 * (b1 * c2 - b2 * c1) + b2 * (a2 * c1 - a1 * c2) + c2 * (a1 * b2 - a2 * b1) == 0real,
{
    lemma_vanishes(a1, b1, c1, a2, b2, c2);
    lemma_vanishes(a2, b2, c2, a1, b1, c1);
    let (p, q, r) = (b1 * c2 - b2 * c1, a2 * c1 - a1 * c2, a1 * b2 - a2 * b1);
    assert(b2 * c1 - b1 * c2 == -p && a1 * c2 - a2 * c1 == -q && a2 * b1 - a1 * b2 == -r);
    lemma_negated(a2, p);
    lemma_negated(b2, q);
    lemma_negated(c2, r);
}

proof fn lemma_negated(a: real, p: real)
    ensures
        a * (-p) == -(a * p),
{
    assert(a * (-p) == -(a * p)) by (nonlinear_arith);
}

proof fn lemma_vanishes(a1: real, b1: real, c1: real, a2: real, b2: real, c2: real)
    ensures
        a1 * (b1 * c2 - b2 * c1) + b1 * (a2 * c1 - a1 * c2) + c1 * (a1 * b2 - a2 * b1) == 0real,
{
    let (ab, ac, bc) = (a1 * b1, a1 * c1, b1 * c1);
    lemma_expand(a1, b1, c2, c1, b2);
    lemma_expand(b1, c1, a2, a1, c2);
    lemma_expand(c1, a1, b2, b1, a2);
    assert(b1 * a1 == ab && c1 * a1 == ac && c1 * b1 == bc) by (nonlinear_arith)
        requires
            ab == a1 * b1,
            ac == a1 * c1,
            bc == b1 * c1,
    ;
    assert(c1 * a2 == a2 * c1 && a1 * c2 == c2 * a1) by (nonlinear_arith);
    assert(b1 * c2 - c1 * b2 == b1 * c2 - b2 * c1) by {
        assert(c1 * b2 == b2 * c1) by (nonlinear_arith);
    }
    assert(a1 * b2 - b1 * a2 == a1 * b2 - a2 * b1) by {
        assert(b1 * a2 == a2 * b1) by (nonlinear_arith);
    }
}

/// A factor times the difference of two products.
proof fn lemma_expand(a: real, b: real, c: real, d: real, e: real)
    ensures
        a * (b * c - d * e) == (a * b) * c - (a * d) * e,
{
    let (p, q) = (b * c, d * e);
    assert(a * (p - q) == a * p - a * q) by (nonlinear_arith);
    assert(a * p == (a * b) * c) by (nonlinear_arith)
        requires
            p == b * c,
    ;
    assert(a * q == (a * d) * e) by (nonlinear_arith)
        requires
            q == d * e,
    ;
}

/// A point whose coordinates are close to exact ratios lies on the line.
proof fn lemma_on_line(
    a: real,
    b: real,
    c: real,
    x: real,
    y: real,
    d: real,
    ex: real,
    ey: real,
    ed: real,
    nx: real,
    ny: real,
    det: real,
)
    requires
        rounding::size(a) <= 11real / 10real,
        rounding::size(b) <= 11real / 10real,
        rounding::size(c) <= 16384real,
        x * d == nx + ex,
        y * d == ny + ey,
        d == det + ed,
        rounding::size(ex) <= 2real / 1000000real,
        rounding::size(ey) <= 2real / 1000000real,
        rounding::size(ed) <= 1real / 10000000000real,
        rounding::size(d) >= 9real / 100real,
        a * nx + b * ny + c * det == 0real,
    ensures
        rounding::within(a * x + b * y + c, 0real, 1real / 10000real),
{
    let e = a * x + b * y + c;
    let (f, g, h) = (a * ex, b * ey, c * ed);
    let (xd, yd) = (x * d, y * d);
    let (ax, by) = (a * x, b * y);
    assert(ax * d == a * xd) by (nonlinear_arith)
        requires
            ax == a * x,
            xd == x * d,
    ;
    assert(by * d == b * yd) by (nonlinear_arith)
        requires
            by == b * y,
            yd == y * d,
    ;
    assert(e * d == ax * d + by * d + c * d) by (nonlinear_arith)
        requires
            e == ax + by + c,
    ;
    assert(a * xd == a * nx + f) by (nonlinear_arith)
        requires
            xd == nx + ex,
            f == a * ex,
    ;
    assert(b * yd == b * ny + g) by (nonlinear_arith)
        requires
            yd == ny + ey,
            g == b * ey,
    ;
    assert(c * d == c * det + h) by (nonlinear_arith)
        requires
            d == det + ed,
            h == c * ed,
    ;
    fit_error::lemma_product_bound(a, ex, 11real / 10real, 2real / 1000000real);
    fit_error::lemma_product_bound(b, ey, 11real / 10real, 2real / 1000000real);
    fit_error::lemma_product_bound(c, ed, 16384real, 1real / 10000000000real);
    fit_error::lemma_size_product(e, d);
    let (se, sd) = (rounding::size(e), rounding::size(d));
    assert(1real / 10000real * sd >= se * sd);
    fit_error::lemma_cancel(se, 1real / 10000real, sd);
}

proof fn lemma_profile_constants()
    ensures
        rounding::within(
            rounding::real_of(Double { bits: edge::FIRST_PROFILE }),
            2real / 10real,
            1real / 1000000000real,
        ),
        rounding::within(
            rounding::real_of(Double { bits: edge::PROFILE_SPREAD }),
            6real / 10real,
            1real / 1000000000real,
        ),
        rounding::real_of(Double { bits: edge::PROFILE_COUNT }) == 12real,
        rounding::real_of(Double { bits: edge::SPACING }) == 1real / 2real,
        rounding::real_of(Double { bits: edge::PROFILE_START }) == -5real / 2real,
{
    power2::lemma2_to64();
    power2::lemma2_to64_rest();
    significand::lemma_bits_are(
        Double { bits: edge::FIRST_PROFILE },
        55,
        0x80_0000_0000_0000,
        0x19_9999_9999_999a,
    );
    significand::lemma_bits_are(
        Double { bits: edge::PROFILE_SPREAD },
        53,
        0x20_0000_0000_0000,
        0x13_3333_3333_3333,
    );
    significand::lemma_bits_are(
        Double { bits: edge::PROFILE_COUNT },
        49,
        0x2_0000_0000_0000,
        0x18_0000_0000_0000,
    );
    significand::lemma_bits_are(
        Double { bits: edge::SPACING },
        53,
        0x20_0000_0000_0000,
        0x10_0000_0000_0000,
    );
    let start = Double { bits: 0x4004_0000_0000_0000 };
    significand::lemma_bits_are(start, 51, 0x8_0000_0000_0000, 0x14_0000_0000_0000);
    ordinary::lemma_opposite(start);
}

proof fn lemma_and_a_half(k: int)
    requires
        0 <= k <= 100,
    ensures
        ordinary::is_about(edge::and_a_half(k), k as real + 1real / 2real),
{
    lemma_profile_constants();
    double::lemma_whole(k);
    rounding::lemma_whole_real(double::whole(k), k);
    ordinary::lemma_plus(double::whole(k), Double { bits: edge::SPACING });
}

/// The twelve profiles of an edge cross it evenly spaced between a fifth and four fifths
/// of its length, away from both corners.
pub proof fn law_profiles_cross_the_middle_of_an_edge(a: Point, b: Point, k: int) -> (t: Double)
    requires
        0 <= k < 12,
    ensures
        edge::profile_centre(a, b, k) == [a[0] + t * (b[0] - a[0]), a[1] + t * (b[1] - a[1])],
        t.finite(),
        rounding::within(
            rounding::real_of(t),
            2real / 10real + (k as real + 1real / 2real) / 20real,
            1real / 100000real,
        ),
{
    lemma_profile_constants();
    lemma_and_a_half(k);
    let (first, spread, count) = (
        Double { bits: edge::FIRST_PROFILE },
        Double { bits: edge::PROFILE_SPREAD },
        Double { bits: edge::PROFILE_COUNT },
    );
    let h = edge::and_a_half(k);
    let (x, y) = (rounding::real_of(spread), rounding::real_of(h));
    let e = x - 6real / 10real;
    fit_error::lemma_product_bound(e, y, 1real / 1000000000real, 20real);
    assert(x * y == 6real * y / 10real + e * y) by (nonlinear_arith)
        requires
            e == x - 6real / 10real,
    ;
    ordinary::lemma_times(spread, h);
    let p = spread * h;
    ordinary::lemma_over(p, count);
    let q = p.per(count);
    let (z, w) = (rounding::real_of(q), rounding::real_of(count));
    assert(z * w == 12real * z) by (nonlinear_arith)
        requires
            w == 12real,
    ;
    ordinary::lemma_plus(first, q);
    first + q
}

/// The eleven samples of a profile are half a pixel apart across the edge, from 2.5 px on
/// one side of it to 2.5 px on the other.
pub proof fn law_samples_reach_both_sides_of_an_edge(a: Point, b: Point, k: int, s: int) -> (d: Double)
    requires
        0 <= s < 11,
    ensures
        edge::sample_point(a, b, k, s) == edge::off_edge(
            edge::profile_centre(a, b, k),
            edge::edge_normal(a, b),
            d,
        ),
        d.finite(),
        rounding::within(
            rounding::real_of(d),
            s as real / 2real - 5real / 2real,
            1real / 100000real,
        ),
{
    lemma_profile_constants();
    double::lemma_whole(s);
    rounding::lemma_whole_real(double::whole(s), s);
    let (start, spacing) = (
        Double { bits: edge::PROFILE_START },
        Double { bits: edge::SPACING },
    );
    let (x, y) = (s as real, rounding::real_of(spacing));
    assert(x * y == x / 2real) by (nonlinear_arith)
        requires
            y == 1real / 2real,
    ;
    ordinary::lemma_times(double::whole(s), spacing);
    ordinary::lemma_plus(start, double::whole(s) * spacing);
    start + double::whole(s) * spacing
}

} // verus!
