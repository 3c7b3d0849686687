//! Ordinary numbers: doubles so far from the limits that a rounding stays small.
use vstd::prelude::*;

use crate::double;
use crate::double::Double;
use crate::fit_error;
use crate::rounding;

verus! {

/// A finite number of no more than 10^9.
pub open spec fn is_ordinary(d: Double) -> bool {
    d.finite() && rounding::size(rounding::real_of(d)) <= 1000000000real
}

/// `d` is `x` to a millionth.
pub open spec fn is_about(d: Double, x: real) -> bool {
    d.finite() && rounding::within(rounding::real_of(d), x, 1real / 1000000real)
}

proof fn lemma_part(x: real)
    requires
        0real <= x <= 2000000000real,
    ensures
        0real <= rounding::unit() * x,
        2000000real * (rounding::unit() * x) <= 1real,
        2000000real * rounding::tiny() <= 1real,
{
    rounding::lemma_units_are_small();
    let u = rounding::unit();
    assert(0real <= u * x && u * x <= 2000000000real * u) by (nonlinear_arith)
        requires
            0real <= x <= 2000000000real,
            u > 0real,
    ;
}

pub proof fn lemma_plus(a: Double, b: Double)
    requires
        is_ordinary(a),
        is_ordinary(b),
    ensures
        is_about(double::sum(a, b), rounding::real_of(a) + rounding::real_of(b)),
{
    rounding::lemma_scales();
    rounding::lemma_sum(a, b);
    lemma_part(rounding::size(rounding::real_of(a) + rounding::real_of(b)));
}

pub proof fn lemma_minus(a: Double, b: Double)
    requires
        is_ordinary(a),
        is_ordinary(b),
    ensures
        is_about(double::difference(a, b), rounding::real_of(a) - rounding::real_of(b)),
{
    rounding::lemma_scales();
    rounding::lemma_difference(a, b);
    lemma_part(rounding::size(rounding::real_of(a) - rounding::real_of(b)));
}

pub proof fn lemma_times(a: Double, b: Double)
    requires
        a.finite(),
        b.finite(),
        rounding::size(rounding::real_of(a) * rounding::real_of(b)) <= 1000000000real,
    ensures
        is_about(double::product(a, b), rounding::real_of(a) * rounding::real_of(b)),
{
    rounding::lemma_scales();
    rounding::lemma_product(a, b);
    lemma_part(rounding::size(rounding::real_of(a) * rounding::real_of(b)));
}

/// The double with the other sign is the opposite number.
pub proof fn lemma_opposite(d: Double)
    ensures
        rounding::real_of(d.opposite()) == -rounding::real_of(d),
        d.opposite().nan() == d.nan(),
        d.opposite().finite() == d.finite(),
{
    rounding::lemma_parts(d);
    rounding::lemma_parts(d.opposite());
    rounding::lemma_scales();
    double::lemma_opposite_value(d);
    let (x, y, c) = (
        rounding::real_of(d),
        rounding::real_of(d.opposite()),
        rounding::unit_count(),
    );
    let v = d.value() as real;
    assert(y == -x) by (nonlinear_arith)
        requires
            x * c == v,
            y * c == -v,
            c > 0real,
    ;
}

/// A quotient of ordinary numbers, times what it was divided by.
pub proof fn lemma_over(a: Double, b: Double)
    requires
        is_ordinary(a),
        b.finite(),
        1real / 1000000real <= rounding::size(rounding::real_of(b)) <= 1000000000real,
    ensures
        a.per(b).finite(),
        rounding::within(
            rounding::real_of(a.per(b)) * rounding::real_of(b),
            rounding::real_of(a),
            1real / 1000000real,
        ),
{
    rounding::lemma_scales();
    rounding::lemma_units_are_small();
    let (x, y) = (rounding::real_of(a), rounding::real_of(b));
    rounding::lemma_ratio(x, y);
    let q = x / y;
    fit_error::lemma_size_product(q, y);
    let (sq, sy, sx) = (rounding::size(q), rounding::size(y), rounding::size(x));
    let most = 1000000000000000real;
    assert(most * sy >= sx) by (nonlinear_arith)
        requires
            1000000real * sy >= 1real,
            sx <= 1000000000real,
            most == 1000000000000000real,
    ;
    fit_error::lemma_cancel(sq, most, sy);
    rounding::lemma_quotient(a, b);
    let (u, t) = (rounding::unit(), rounding::tiny());
    let e = rounding::real_of(a.per(b)) - q;
    fit_error::lemma_size_product(e, y);
    let se = rounding::size(e);
    let usq = u * sq;
    fit_error::lemma_scale_both(se, usq + t, sy);
    assert((usq + t) * sy == usq * sy + t * sy) by (nonlinear_arith);
    assert(usq * sy == u * sx) by (nonlinear_arith)
        requires
            usq == u * sq,
            sq * sy == sx,
    ;
    lemma_part(sx);
    assert(t * sy <= t * 1000000000real) by (nonlinear_arith)
        requires
            sy <= 1000000000real,
            t > 0real,
    ;
    assert((q + e) * y == x + e * y) by (nonlinear_arith)
        requires
            q * y == x,
    ;
}

} // verus!
