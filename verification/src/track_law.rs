//! What tracking promises: a picture that moved is found where it moved to, and the
//! sub-pixel part points to the better neighbour.
use vstd::arithmetic::power2;
use vstd::prelude::*;

use crate::coach::Thumb;
use crate::double;
use crate::double::Double;
use crate::fit_error;
use crate::ncc;
use crate::overlap;
use crate::plane;
use crate::rounding;
use crate::shift;
use crate::shift::{Match, Shift, Surface};
use crate::significand;

verus! {

proof fn lemma_product_commutes(a: Double, b: Double)
    ensures
        a * b == b * a,
{
    double::lemma_product(a, b);
    double::lemma_product(b, a);
    let (m, n) = (
        crate::magnitude::units(a.magnitude()),
        crate::magnitude::units(b.magnitude()),
    );
    assert(m * n == n * m) by (nonlinear_arith);
    double::lemma_product_unique(a, b, double::product(a, b), double::product(b, a));
}

proof fn lemma_covariance_commutes(u: Seq<Double>, v: Seq<Double>, n: int)
    ensures
        ncc::covariance(u, v, n) == ncc::covariance(v, u, n),
    decreases n,
{
    if n > 0 {
        lemma_covariance_commutes(u, v, n - 1);
        lemma_product_commutes(u[n - 1], v[n - 1]);
    }
}

/// Two frames taken in the other order have shifted the other way: a shift scores as its
/// opposite does when the frames are exchanged.
pub proof fn law_exchanged_frames_shift_back(
    a: Thumb,
    b: Thumb,
    tw: int,
    th: int,
    dx: int,
    dy: int,
)
    ensures
        overlap::shift_surface(b, a, tw, th)(-dx, -dy) == overlap::shift_surface(a, b, tw, th)(
            dx,
            dy,
        ),
{
    let (nw, nh) = (overlap::shared(tw, dx), overlap::shared(th, dy));
    let (x0, y0) = (overlap::first_of(dx), overlap::first_of(dy));
    let u = overlap::centred(overlap::cutout(a.sums@, a.area, tw, x0, y0, nw, nh));
    let v = overlap::centred(overlap::cutout(b.sums@, b.area, tw, x0 + dx, y0 + dy, nw, nh));
    assert(overlap::first_of(-dx) == x0 + dx && overlap::first_of(-dy) == y0 + dy);
    if nw > 4 && nh > 4 {
        assert(nw * nh >= 0) by (nonlinear_arith)
            requires
                nw > 4,
                nh > 4,
        ;
        assert(u.len() == v.len());
        let n = u.len() as int;
        lemma_covariance_commutes(u, v, n);
        lemma_product_commutes(ncc::covariance(u, u, n), ncc::covariance(v, v, n));
    }
}

/// A column of the earlier frame is compared if and only if the later frame shows it too,
/// `d` columns further on. The same holds of rows.
pub proof fn law_overlap_is_what_both_frames_show(n: int, d: int, c: int)
    requires
        -n < d < n,
    ensures
        (overlap::first_of(d) <= c < overlap::first_of(d) + overlap::shared(n, d)) == (0 <= c < n
            && 0 <= c + d < n),
{
}

/// What the later frame `b` shows is what the earlier frame `a` shows, moved by (dx, dy).
pub open spec fn has_moved(a: Thumb, b: Thumb, tw: int, th: int, dx: int, dy: int) -> bool {
    &&& a.area == b.area
    &&& forall|x: int, y: int|
        plane::in_plane(tw, th, x, y) && plane::in_plane(tw, th, x + dx, y + dy)
            ==> #[trigger] a.sums@[plane::index_of(tw, x, y)] == b.sums@[plane::index_of(
            tw,
            x + dx,
            y + dy,
        )]
}

/// `score` is one, but for rounding.
pub open spec fn is_one(score: Double) -> bool {
    score.finite() && rounding::within(rounding::real_of(score), 1real, 1real / 10000real)
}

/// A spread that is neither flat nor beyond what pixels can hold.
pub open spec fn is_spread(d: Double) -> bool {
    d.finite() && 1real <= 10000000real * rounding::real_of(d) && rounding::real_of(d)
        <= 1000000000000000real
}

/// The quotient of a number and the root of its square.
proof fn lemma_self_score(d: Double)
    requires
        is_spread(d),
    ensures
        is_one(d.per((d * d).root())),
{
    rounding::lemma_scales();
    rounding::lemma_units_are_small();
    let x = rounding::real_of(d);
    let s = x * x;
    assert(s <= 1000000000000000000000000000000real && 1real <= 100000000000000real * s)
        by (nonlinear_arith)
        requires
            s == x * x,
            1real <= 10000000real * x,
            x <= 1000000000000000real,
    ;
    rounding::lemma_product(d, d);
    let u = rounding::unit();
    let t = rounding::tiny();
    assert(0real <= u * s && 10000000000real * (u * s) <= s) by (nonlinear_arith)
        requires
            0real <= s,
            u * 4503599627370496real == 1real,
            u > 0real,
    ;
    let p = rounding::real_of(double::product(d, d));
    assert(rounding::within(p, s, s / 1000000000real));
    rounding::lemma_root(double::product(d, d));
    let r = rounding::real_of(double::root(double::product(d, d)));
    assert(0real <= 2real * u * p && 1000000000real * (2real * u * p) <= p) by (nonlinear_arith)
        requires
            0real <= p,
            u * 4503599627370496real == 1real,
            u > 0real,
    ;
    let q = r * r;
    assert(rounding::within(q, s, s / 100000000real));
    let (most, least) = (x + x / 100000real, x - x / 100000real);
    if r > most {
        assert(q >= most * most && most * most >= s + s / 100000real) by (nonlinear_arith)
            requires
                q == r * r,
                r > most,
                most == x + x / 100000real,
                x > 0real,
                s == x * x,
        ;
    }
    if r < least {
        assert(q <= least * least && least * least <= s - s / 100000real) by (nonlinear_arith)
            requires
                q == r * r,
                0real <= r < least,
                least == x - x / 100000real,
                x > 0real,
                s == x * x,
        ;
    }
    rounding::lemma_ratio(x, r);
    let e = x / r;
    let (high, low) = (1real + 2real / 100000real, 1real - 2real / 100000real);
    assert(high * r == r + 2real * r / 100000real && low * r == r - 2real * r / 100000real)
        by (nonlinear_arith)
        requires
            high == 1real + 2real / 100000real,
            low == 1real - 2real / 100000real,
    ;
    fit_error::lemma_cancel(e, high, r);
    fit_error::lemma_cancel(low, e, r);
    rounding::lemma_quotient(d, double::root(double::product(d, d)));
    assert(0real <= u * e && 1000000real * (u * e) <= e) by (nonlinear_arith)
        requires
            0real <= e,
            u * 4503599627370496real == 1real,
            u > 0real,
    ;
}

/// A picture that has moved by (dx, dy) scores one at that shift, whichever way it moved,
/// unless it is flat.
pub proof fn law_moved_picture_is_recognised(
    a: Thumb,
    b: Thumb,
    tw: int,
    th: int,
    dx: int,
    dy: int,
)
    requires
        has_moved(a, b, tw, th, dx, dy),
        -tw < dx < tw,
        -th < dy < th,
        overlap::shared(tw, dx) > 4,
        overlap::shared(th, dy) > 4,
    ensures
        ({
            let (nw, nh) = (overlap::shared(tw, dx), overlap::shared(th, dy));
            let u = overlap::centred(
                overlap::cutout(
                    a.sums@,
                    a.area,
                    tw,
                    overlap::first_of(dx),
                    overlap::first_of(dy),
                    nw,
                    nh,
                ),
            );
            let score = overlap::shift_surface(a, b, tw, th)(dx, dy);
            is_spread(ncc::covariance(u, u, u.len() as int)) ==> is_one(score) || score == (
            Double { bits: shift::NO_SCORE })
        }),
{
    let (nw, nh) = (overlap::shared(tw, dx), overlap::shared(th, dy));
    let (x0, y0) = (overlap::first_of(dx), overlap::first_of(dy));
    let c = overlap::cutout(a.sums@, a.area, tw, x0, y0, nw, nh);
    let e = overlap::cutout(b.sums@, b.area, tw, x0 + dx, y0 + dy, nw, nh);
    assert(nw * nh >= 0) by (nonlinear_arith)
        requires
            nw > 4,
            nh > 4,
    ;
    assert(c =~= e) by {
        assert forall|k: int| 0 <= k < nw * nh implies c[k] == e[k] by {
            plane::lemma_index_unsplit(nw, nh, k);
            let (x, y) = (x0 + k % nw, y0 + k / nw);
            assert(a.sums@[plane::index_of(tw, x, y)] == b.sums@[plane::index_of(
                tw,
                x + dx,
                y + dy,
            )]);
            assert(x0 + dx + k % nw == x + dx && y0 + dy + k / nw == y + dy);
        }
    }
    let u = overlap::centred(c);
    let d = ncc::covariance(u, u, u.len() as int);
    if is_spread(d) {
        lemma_self_score(d);
    }
}

/// The patch around (x, y) of plane `a` is shown around (x1, y1) of plane `b`.
pub open spec fn is_same_patch(
    a: Seq<u8>,
    b: Seq<u8>,
    w: int,
    x: int,
    y: int,
    x1: int,
    y1: int,
) -> bool {
    forall|i: int, j: int|
        -6 <= i <= 6 && -6 <= j <= 6 ==> #[trigger] a[plane::index_of(w, x + i, y + j)]
            == b[plane::index_of(w, x1 + i, y1 + j)]
}

/// A feature that is shown again, at an offset from where it was predicted, scores one at
/// that offset, unless it is flat there.
pub proof fn law_moved_feature_is_recognised(
    a: Seq<u8>,
    b: Seq<u8>,
    w: int,
    h: int,
    x: int,
    y: int,
    cx: int,
    cy: int,
    dx: int,
    dy: int,
)
    requires
        is_same_patch(a, b, w, x, y, cx + dx, cy + dy),
        shift::is_patch(w, h, cx + dx, cy + dy),
    ensures
        ({
            let u = ncc::deviations(a, w, x, y);
            let score = ncc::match_surface(u, b, w, h, cx, cy)(dx, dy);
            is_spread(ncc::spread(u)) ==> is_one(score) || score == (Double {
                bits: shift::NO_SCORE,
            })
        }),
{
    let u = ncc::deviations(a, w, x, y);
    let v = ncc::deviations(b, w, cx + dx, cy + dy);
    assert forall|k: int| 0 <= k < 169 implies ncc::patch_luma(a, w, x, y, k)
        == #[trigger] ncc::patch_luma(b, w, cx + dx, cy + dy, k) by {
        let (i, j) = (k % 13 - 6, k / 13 - 6);
        assert(a[plane::index_of(w, x + i, y + j)] == b[plane::index_of(
            w,
            cx + dx + i,
            cy + dy + j,
        )]);
        assert(x - 6 + k % 13 == x + i && y - 6 + k / 13 == y + j);
        assert(cx + dx - 6 + k % 13 == cx + dx + i && cy + dy - 6 + k / 13 == cy + dy + j);
    }
    lemma_same_sum(a, b, w, x, y, cx + dx, cy + dy, 169);
    assert(u =~= v) by {
        assert forall|k: int| 0 <= k < 169 implies u[k] == v[k] by {
            assert(ncc::patch_luma(a, w, x, y, k) == ncc::patch_luma(b, w, cx + dx, cy + dy, k));
        }
    }
    if is_spread(ncc::spread(u)) {
        lemma_self_score(ncc::spread(u));
    }
}

proof fn lemma_same_sum(
    a: Seq<u8>,
    b: Seq<u8>,
    w: int,
    x: int,
    y: int,
    x1: int,
    y1: int,
    n: int,
)
    requires
        forall|k: int|
            0 <= k < n ==> ncc::patch_luma(a, w, x, y, k) == #[trigger] ncc::patch_luma(
                b,
                w,
                x1,
                y1,
                k,
            ),
    ensures
        ncc::patch_sum(a, w, x, y, n) == ncc::patch_sum(b, w, x1, y1, n),
    decreases n,
{
    if n > 0 {
        lemma_same_sum(a, b, w, x, y, x1, y1, n - 1);
        assert(ncc::patch_luma(a, w, x, y, n - 1) == ncc::patch_luma(b, w, x1, y1, n - 1));
    }
}

/// A shift is no farther than `r` either way.
pub open spec fn is_in_window(r: int, dx: int, dy: int) -> bool {
    -r <= dx <= r && -r <= dy <= r
}

/// No shift of the window scores higher than (dx, dy).
pub open spec fn is_best(f: Surface, r: int, dx: int, dy: int) -> bool {
    &&& is_in_window(r, dx, dy)
    &&& forall|x: int, y: int|
        #[trigger] is_in_window(r, x, y) ==> !f(dx, dy).less(f(x, y))
}

proof fn lemma_peak_is_best(f: Surface, r: int, k: int)
    requires
        0 <= r,
        shift::is_first_peak(f, r, shift::window(r), k),
    ensures
        is_best(f, r, shift::nth_shift(r, k).0, shift::nth_shift(r, k).1),
{
    let side = 2 * r + 1;
    plane::lemma_index_unsplit(side, side, k);
    let (dx, dy) = shift::nth_shift(r, k);
    assert forall|x: int, y: int| #[trigger] is_in_window(r, x, y) implies !f(dx, dy).less(
        f(x, y),
    ) by {
        plane::lemma_index_bounds(side, side, x + r, y + r);
        plane::lemma_index_split(side, x + r, y + r);
        let j = (y + r) * side + (x + r);
        assert(shift::nth_shift(r, j) == (x, y));
        assert(!shift::nth_score(f, r, k).less(shift::nth_score(f, r, j)));
    }
}

/// The shift between two frames is the best of all up to eight pixels either way, and is
/// refined from there.
pub proof fn law_shift_is_the_best_of_its_window(f: Surface, s: Shift)
    requires
        shift::is_shift(f, Some(s)),
    ensures
        exists|dx: int, dy: int|
            #![trigger shift::refined(f, dx, dy)]
            is_best(f, 8, dx, dy) && s.score == f(dx, dy) && s == shift::refined(f, dx, dy),
{
    let r = shift::SHIFT_RADIUS as int;
    let k = choose|k: int| #[trigger]
        shift::is_first_peak(f, r, shift::window(r), k) && s == shift::refined(
            f,
            shift::nth_shift(r, k).0,
            shift::nth_shift(r, k).1,
        );
    lemma_peak_is_best(f, r, k);
    let (dx, dy) = shift::nth_shift(r, k);
    assert(s == shift::refined(f, dx, dy));
}

/// A feature is matched at the best of all offsets up to eighteen pixels either way from
/// where it was predicted, and only if it scores 0.55 or more there.
pub proof fn law_match_is_the_best_of_its_window(f: Surface, cx: int, cy: int, m: Match)
    requires
        shift::is_match(f, cx, cy, Some(m)),
        m.score.finite(),
    ensures
        1000real * rounding::real_of(m.score) >= 549real,
        exists|dx: int, dy: int|
            #![trigger shift::matched(f, cx, cy, dx, dy)]
            is_best(f, 18, dx, dy) && m.score == f(dx, dy) && m == shift::matched(
                f,
                cx,
                cy,
                dx,
                dy,
            ),
{
    let r = shift::SEARCH_RADIUS as int;
    let k = choose|k: int| #[trigger]
        shift::is_first_peak(f, r, shift::window(r), k) && m == shift::matched(
            f,
            cx,
            cy,
            shift::nth_shift(r, k).0,
            shift::nth_shift(r, k).1,
        );
    lemma_peak_is_best(f, r, k);
    let (dx, dy) = shift::nth_shift(r, k);
    assert(m == shift::matched(f, cx, cy, dx, dy));
    let least = Double { bits: shift::MIN_MATCH_NCC };
    power2::lemma2_to64();
    power2::lemma2_to64_rest();
    significand::lemma_bits_are(least, 53, 0x20_0000_0000_0000, 0x11_9999_9999_999a);
    rounding::lemma_order(m.score, least);
}

/// A score that a correlation can have.
pub open spec fn is_score(s: Double) -> bool {
    s.finite() && rounding::size(rounding::real_of(s)) <= 11real / 10real
}

proof fn lemma_opposite(d: Double)
    ensures
        rounding::real_of(d.opposite()) == -rounding::real_of(d),
{
    rounding::lemma_parts(d);
    rounding::lemma_parts(d.opposite());
    rounding::lemma_scales();
    double::lemma_opposite_value(d);
    let (x, y, c) = (
        rounding::real_of(d),
        rounding::real_of(d.opposite()),
        rounding::unit_count(),
    );
    let v = d.value() as real;
    assert(y == -x) by (nonlinear_arith)
        requires
            x * c == v,
            y * c == -v,
            c > 0real,
    ;
}

pub proof fn lemma_flat(flat: u64)
    requires
        0 < flat < 0x3f50_0000_0000_0000,
    ensures
        0real < rounding::real_of(Double { bits: flat }) < 1real / 1000real,
        (Double { bits: flat }).finite(),
{
    let d = Double { bits: flat };
    let most = Double { bits: 0x3f50_0000_0000_0000 };
    power2::lemma2_to64();
    power2::lemma2_to64_rest();
    significand::lemma_bits_are(most, 62, 0x4000_0000_0000_0000, 0x10_0000_0000_0000);
    rounding::lemma_constants();
    crate::magnitude::lemma_units_increase(0, d.magnitude());
    crate::magnitude::lemma_units_increase(d.magnitude(), most.magnitude());
    rounding::lemma_order(Double { bits: 0 }, d);
    rounding::lemma_order(d, most);
}

proof fn lemma_halves()
    ensures
        rounding::real_of(Double { bits: shift::ONE_HALF }) == 1real / 2real,
        rounding::real_of(Double { bits: shift::MINUS_HALF }) == -1real / 2real,
        rounding::real_of(Double { bits: shift::TWO }) == 2real,
        rounding::real_of(Double { bits: shift::NO_SCORE }) == -2real,
{
    power2::lemma2_to64();
    power2::lemma2_to64_rest();
    rounding::lemma_constants();
    let two = Double { bits: shift::TWO };
    let half = Double { bits: shift::ONE_HALF };
    significand::lemma_bits_are(half, 53, 0x20_0000_0000_0000, 0x10_0000_0000_0000);
    lemma_opposite(half);
    lemma_opposite(two);
}

/// A rounding of a number of no more than 100.
proof fn lemma_part(x: real)
    requires
        0real <= x <= 100real,
    ensures
        0real <= rounding::unit() * x,
        1000000000000real * (rounding::unit() * x) <= 1real,
        1000000000000real * rounding::tiny() <= 1real,
{
    rounding::lemma_units_are_small();
    let u = rounding::unit();
    assert(0real <= u * x && u * x <= 100real * u) by (nonlinear_arith)
        requires
            0real <= x <= 100real,
            u > 0real,
    ;
}

/// The sub-pixel offset of a peak is that of the vertex of the parabola through the peak
/// and its two neighbours: towards the neighbour that scores higher, by as much as the
/// difference over twice the drop on both sides, and by half a pixel at most.
pub proof fn law_offset_is_that_of_the_vertex(flat: u64, m: Double, l: Double, r: Double)
    requires
        0 < flat < 0x3f50_0000_0000_0000,
        is_score(m),
        is_score(l),
        is_score(r),
        rounding::real_of(l) <= rounding::real_of(m),
        rounding::real_of(r) <= rounding::real_of(m),
        2real * rounding::real_of(m) - rounding::real_of(l) - rounding::real_of(r) >= 1real
            / 100real,
    ensures
        ({
            let o = shift::vertex(flat, m, l, r);
            let drop = 2real * rounding::real_of(m) - rounding::real_of(l) - rounding::real_of(r);
            &&& o.finite()
            &&& rounding::size(rounding::real_of(o)) <= 1real / 2real
            &&& rounding::within(
                2real * drop * rounding::real_of(o),
                rounding::real_of(r) - rounding::real_of(l),
                1real / 1000000real,
            )
        }),
{
    lemma_halves();
    lemma_flat(flat);
    rounding::lemma_scales();
    let (x, y, z) = (rounding::real_of(l), rounding::real_of(m), rounding::real_of(r));
    let half = Double { bits: shift::ONE_HALF };
    let none = Double { bits: shift::NO_SCORE };
    let drop = 2real * y - x - z;
    lemma_denominator(m, l, r);
    lemma_numerator(l, r);
    let top = double::product(half, double::difference(l, r));
    let denom = double::sum(
        double::difference(l, double::product(Double { bits: shift::TWO }, m)),
        r,
    );
    let (n, d) = (rounding::real_of(top), rounding::real_of(denom));
    rounding::lemma_absolute(denom);
    rounding::lemma_order(double::absolute(denom), Double { bits: flat });
    rounding::lemma_order(none, l);
    rounding::lemma_order(none, r);
    lemma_share(drop, d, n, x, z);
    rounding::lemma_quotient(top, denom);
    let t = n / d;
    lemma_part(rounding::size(t));
    let o = double::quotient(top, denom);
    let v = rounding::real_of(o);
    rounding::lemma_order(o, Double { bits: shift::MINUS_HALF });
    rounding::lemma_order(half, o);
    let w = rounding::real_of(shift::vertex(flat, m, l, r));
    lemma_clamped(drop, d, n, t, v, w, x, z);
}

/// The curvature that is divided by is the drop on both sides of the peak, downwards.
proof fn lemma_denominator(m: Double, l: Double, r: Double)
    requires
        is_score(m),
        is_score(l),
        is_score(r),
    ensures
        ({
            let denom = double::sum(
                double::difference(l, double::product(Double { bits: shift::TWO }, m)),
                r,
            );
            denom.finite() && rounding::within(
                rounding::real_of(denom),
                rounding::real_of(l) - 2real * rounding::real_of(m) + rounding::real_of(r),
                1real / 10000000000real,
            )
        }),
{
    lemma_halves();
    rounding::lemma_scales();
    let (x, y, z) = (rounding::real_of(l), rounding::real_of(m), rounding::real_of(r));
    let two = Double { bits: shift::TWO };
    let b = rounding::real_of(two);
    assert(b * y == 2real * y) by (nonlinear_arith)
        requires
            b == 2real,
    ;
    rounding::lemma_product(two, m);
    lemma_part(rounding::size(2real * y));
    let p = double::product(two, m);
    rounding::lemma_difference(l, p);
    lemma_part(rounding::size(x - rounding::real_of(p)));
    let q = double::difference(l, p);
    rounding::lemma_sum(q, r);
    lemma_part(rounding::size(rounding::real_of(q) + z));
}

proof fn lemma_numerator(l: Double, r: Double)
    requires
        is_score(l),
        is_score(r),
    ensures
        ({
            let top = double::product(
                Double { bits: shift::ONE_HALF },
                double::difference(l, r),
            );
            top.finite() && rounding::within(
                rounding::real_of(top),
                (rounding::real_of(l) - rounding::real_of(r)) / 2real,
                1real / 10000000000real,
            )
        }),
{
    lemma_halves();
    rounding::lemma_scales();
    let half = Double { bits: shift::ONE_HALF };
    rounding::lemma_difference(l, r);
    lemma_part(rounding::size(rounding::real_of(l) - rounding::real_of(r)));
    let e = double::difference(l, r);
    let (h, k) = (rounding::real_of(half), rounding::real_of(e));
    assert(h * k == k / 2real) by (nonlinear_arith)
        requires
            h == 1real / 2real,
    ;
    rounding::lemma_product(half, e);
    lemma_part(rounding::size(k / 2real));
}

/// The offset is about half a pixel at most.
proof fn lemma_share(drop: real, d: real, n: real, x: real, z: real)
    requires
        1real / 100real <= drop <= 10real,
        rounding::within(d, -drop, 1real / 10000000000real),
        rounding::within(n, (x - z) / 2real, 1real / 10000000000real),
        rounding::size(x - z) <= drop,
    ensures
        d != 0real,
        (n / d) * d == n,
        rounding::size(n / d) <= 51real / 100real,
{
    rounding::lemma_ratio(n, d);
    let t = n / d;
    fit_error::lemma_size_product(t, d);
    let (st, sd) = (rounding::size(t), rounding::size(d));
    assert(51real / 100real * sd >= rounding::size(n));
    fit_error::lemma_cancel(st, 51real / 100real, sd);
}

/// The clamped offset `w`, from the offset `v` that is `t` but for rounding.
proof fn lemma_clamped(drop: real, d: real, n: real, t: real, v: real, w: real, x: real, z: real)
    requires
        1real / 100real <= drop <= 10real,
        rounding::within(d, -drop, 1real / 10000000000real),
        rounding::within(n, (x - z) / 2real, 1real / 10000000000real),
        rounding::size(x - z) <= drop,
        t * d == n,
        rounding::within(v, t, 1real / 10000000000real),
        rounding::size(t) <= 51real / 100real,
        w == (if v < -1real / 2real {
            -1real / 2real
        } else if v > 1real / 2real {
            1real / 2real
        } else {
            v
        }),
    ensures
        rounding::within(2real * drop * w, z - x, 1real / 1000000real),
{
    // t * drop is close to -n.
    let f = d + drop;
    fit_error::lemma_product_bound(t, f, 51real / 100real, 1real / 10000000000real);
    let g = t * drop;
    assert(g == t * f - n) by (nonlinear_arith)
        requires
            g == t * drop,
            f == d + drop,
            t * d == n,
    ;
    assert(rounding::within(g, (z - x) / 2real, 1real / 1000000000real));
    let i = v - t;
    fit_error::lemma_product_bound(i, drop, 1real / 10000000000real, 10real);
    let a = v * drop;
    assert(a == g + i * drop) by (nonlinear_arith)
        requires
            a == v * drop,
            g == t * drop,
            i == v - t,
    ;
    assert(rounding::within(a, (z - x) / 2real, 1real / 100000000real));
    let b = w * drop;
    let s = drop / 2real;
    if v < -1real / 2real {
        assert(b == -s && a <= -s) by (nonlinear_arith)
            requires
                b == w * drop,
                w == -1real / 2real,
                s == drop / 2real,
                a == v * drop,
                v < -1real / 2real,
                drop > 0real,
        ;
    } else if v > 1real / 2real {
        assert(b == s && a >= s) by (nonlinear_arith)
            requires
                b == w * drop,
                w == 1real / 2real,
                s == drop / 2real,
                a == v * drop,
                v > 1real / 2real,
                drop > 0real,
        ;
    }
    assert(2real * drop * w == 2real * b) by (nonlinear_arith)
        requires
            b == w * drop,
    ;
}

/// A refined shift is off the whole shift by the offset along its own axis: columns are
/// refined from the neighbours left and right, rows from those above and below.
pub proof fn law_each_axis_is_refined_by_its_own_neighbours(f: Surface, dx: int, dy: int)
    requires
        -8 <= dx <= 8,
        -8 <= dy <= 8,
        is_peak_among(f(dx, dy), f(dx - 1, dy), f(dx + 1, dy)),
        is_peak_among(f(dx, dy), f(dx, dy - 1), f(dx, dy + 1)),
    ensures
        is_refined_by(shift::refined(f, dx, dy).dx, dx, f(dx, dy), f(dx - 1, dy), f(dx + 1, dy)),
        is_refined_by(shift::refined(f, dx, dy).dy, dy, f(dx, dy), f(dx, dy - 1), f(dx, dy + 1)),
{
    lemma_refined(dx, f(dx, dy), f(dx - 1, dy), f(dx + 1, dy), shift::FLAT_SHIFT);
    lemma_refined(dy, f(dx, dy), f(dx, dy - 1), f(dx, dy + 1), shift::FLAT_SHIFT);
}

/// The same holds of a matched feature, around where it was predicted.
pub proof fn law_match_is_refined_by_its_own_neighbours(
    f: Surface,
    cx: int,
    cy: int,
    dx: int,
    dy: int,
)
    requires
        -17 <= dx <= 17,
        -17 <= dy <= 17,
        -1000000 <= cx <= 1000000,
        -1000000 <= cy <= 1000000,
        is_peak_among(f(dx, dy), f(dx - 1, dy), f(dx + 1, dy)),
        is_peak_among(f(dx, dy), f(dx, dy - 1), f(dx, dy + 1)),
    ensures
        ({
            let m = shift::matched(f, cx, cy, dx, dy);
            &&& is_refined_by(m.x, cx + dx, f(dx, dy), f(dx - 1, dy), f(dx + 1, dy))
            &&& is_refined_by(m.y, cy + dy, f(dx, dy), f(dx, dy - 1), f(dx, dy + 1))
        }),
{
    lemma_refined(cx + dx, f(dx, dy), f(dx - 1, dy), f(dx + 1, dy), shift::FLAT_MATCH);
    lemma_refined(cy + dy, f(dx, dy), f(dx, dy - 1), f(dx, dy + 1), shift::FLAT_MATCH);
}

/// `m` is a peak between `l` and `r`, and no flat one.
pub open spec fn is_peak_among(m: Double, l: Double, r: Double) -> bool {
    &&& is_score(m)
    &&& is_score(l)
    &&& is_score(r)
    &&& rounding::real_of(l) <= rounding::real_of(m)
    &&& rounding::real_of(r) <= rounding::real_of(m)
    &&& 2real * rounding::real_of(m) - rounding::real_of(l) - rounding::real_of(r) >= 1real
        / 100real
}

/// `at` is the whole number `n` and the offset of the vertex through the three scores.
pub open spec fn is_refined_by(at: Double, n: int, m: Double, l: Double, r: Double) -> bool {
    let drop = 2real * rounding::real_of(m) - rounding::real_of(l) - rounding::real_of(r);
    at.finite() && rounding::within(
        2real * drop * (rounding::real_of(at) - n as real),
        rounding::real_of(r) - rounding::real_of(l),
        1real / 100000real,
    )
}

proof fn lemma_signed_whole(n: int)
    requires
        -10000000 <= n <= 10000000,
    ensures
        shift::signed_whole(n).finite(),
        rounding::real_of(shift::signed_whole(n)) == n as real,
{
    let k = if n < 0 {
        -n
    } else {
        n
    };
    double::lemma_whole(k);
    rounding::lemma_whole_real(double::whole(k), k);
    lemma_opposite(double::whole(k));
    double::lemma_opposite_value(double::whole(k));
}

proof fn lemma_refined(n: int, m: Double, l: Double, r: Double, flat: u64)
    requires
        -10000000 <= n <= 10000000,
        0 < flat < 0x3f50_0000_0000_0000,
        is_peak_among(m, l, r),
    ensures
        is_refined_by(shift::signed_whole(n) + shift::vertex(flat, m, l, r), n, m, l, r),
{
    law_offset_is_that_of_the_vertex(flat, m, l, r);
    lemma_signed_whole(n);
    rounding::lemma_scales();
    rounding::lemma_units_are_small();
    let o = shift::vertex(flat, m, l, r);
    let (x, v) = (n as real, rounding::real_of(o));
    rounding::lemma_sum(shift::signed_whole(n), o);
    let s = rounding::size(x + v);
    let u = rounding::unit();
    assert(0real <= u * s && u * s <= 20000000real * u) by (nonlinear_arith)
        requires
            0real <= s <= 20000000real,
            u > 0real,
    ;
    let at = rounding::real_of(double::sum(shift::signed_whole(n), o));
    let e = at - x - v;
    assert(rounding::size(e) <= 1real / 100000000real);
    let drop = 2real * rounding::real_of(m) - rounding::real_of(l) - rounding::real_of(r);
    fit_error::lemma_product_bound(2real * drop, e, 20real, 1real / 100000000real);
    assert(2real * drop * (at - x) == 2real * drop * v + 2real * drop * e) by (nonlinear_arith)
        requires
            e == at - x - v,
    ;
}

} // verus!
