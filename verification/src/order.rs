//! Doubles from zero up to infinity: their operations keep their order.
use vstd::arithmetic::power2;
use vstd::prelude::*;

use crate::double;
use crate::double::Double;
use crate::magnitude;
use crate::magnitude::INFINITY;

verus! {

/// Zero, a positive number or positive infinity.
pub open spec fn is_amount(d: Double) -> bool {
    d.bits <= INFINITY
}

/// Amounts are ordered as their bits are.
pub proof fn lemma_amounts_are_ordered(a: Double, b: Double)
    requires
        is_amount(a),
        is_amount(b),
    ensures
        a.less(b) <==> a.bits < b.bits,
        a.at_most(b) <==> a.bits <= b.bits,
{
    if a.bits < b.bits {
        magnitude::lemma_units_increase(a.bits as int, b.bits as int);
    }
    if b.bits < a.bits {
        magnitude::lemma_units_increase(b.bits as int, a.bits as int);
    }
}

/// A double without its sign is an amount, unless it is not a number.
pub proof fn lemma_absolute_is_amount(d: Double)
    requires
        !d.nan(),
    ensures
        is_amount(double::absolute(d)),
        double::absolute(d).bits == d.magnitude(),
{
}

/// An amount that is not negative.
proof fn lemma_amount_parts(d: Double)
    ensures
        is_amount(d) ==> !d.is_negative() && d.magnitude() == d.bits && !d.nan(),
        !d.is_negative() && d.magnitude() <= INFINITY ==> is_amount(d) && d.magnitude() == d.bits,
        magnitude::units(d.magnitude()) >= 0,
{
    magnitude::lemma_units_nonnegative(d.magnitude());
}

/// The sum of amounts is an amount, and grows with them.
pub proof fn lemma_sum_grows(a: Double, b: Double, a2: Double, b2: Double)
    requires
        is_amount(a),
        is_amount(b),
        is_amount(a2),
        is_amount(b2),
        a.bits <= a2.bits,
        b.bits <= b2.bits,
    ensures
        is_amount(double::sum(a, b)),
        is_amount(double::sum(a2, b2)),
        double::sum(a, b).bits <= double::sum(a2, b2).bits,
{
    let (r, r2) = (double::sum(a, b), double::sum(a2, b2));
    double::lemma_sum(a, b);
    double::lemma_sum(a2, b2);
    lemma_sum_is_amount(a, b);
    lemma_sum_is_amount(a2, b2);
    if a2.finite() && b2.finite() {
        lemma_amounts_are_ordered(a, a2);
        lemma_amounts_are_ordered(b, b2);
        double::lemma_sum_monotone(a, b, a2, b2);
        lemma_amounts_are_ordered(r, r2);
    }
}

proof fn lemma_sum_is_amount(a: Double, b: Double)
    requires
        is_amount(a),
        is_amount(b),
    ensures
        is_amount(double::sum(a, b)),
        !a.finite() || !b.finite() ==> double::sum(a, b).bits == INFINITY,
{
    let r = double::sum(a, b);
    double::lemma_sum(a, b);
    lemma_amount_parts(a);
    lemma_amount_parts(b);
    lemma_amount_parts(r);
}

/// The product of finite amounts is an amount, and grows with them.
pub proof fn lemma_product_grows(a: Double, b: Double, a2: Double, b2: Double)
    requires
        is_amount(a),
        is_amount(b),
        a2.finite(),
        b2.finite(),
        is_amount(a2),
        is_amount(b2),
        a.bits <= a2.bits,
        b.bits <= b2.bits,
    ensures
        is_amount(double::product(a, b)),
        is_amount(double::product(a2, b2)),
        double::product(a, b).bits <= double::product(a2, b2).bits,
{
    let (r, r2) = (double::product(a, b), double::product(a2, b2));
    double::lemma_product(a, b);
    double::lemma_product(a2, b2);
    lemma_amount_parts(a);
    lemma_amount_parts(b);
    lemma_amount_parts(a2);
    lemma_amount_parts(b2);
    lemma_amount_parts(r);
    lemma_amount_parts(r2);
    let (u, v) = (magnitude::units(a.magnitude()), magnitude::units(b.magnitude()));
    let (u2, v2) = (magnitude::units(a2.magnitude()), magnitude::units(b2.magnitude()));
    lemma_amounts_are_ordered(a, a2);
    lemma_amounts_are_ordered(b, b2);
    let d = power2::pow2(1074) as int;
    power2::lemma_pow2_pos(1074);
    assert(u * v <= u2 * v2) by (nonlinear_arith)
        requires
            0 <= u <= u2,
            0 <= v <= v2,
    ;
    assert((u * v) * d <= (u2 * v2) * d) by (nonlinear_arith)
        requires
            u * v <= u2 * v2,
            d > 0,
    ;
    magnitude::lemma_rounding_monotone(u * v, d, r.magnitude(), u2 * v2, d, r2.magnitude());
}

/// The square of an amount is an amount, and grows with it.
pub proof fn lemma_square_grows(a: Double, a2: Double)
    requires
        is_amount(a),
        is_amount(a2),
        a.bits <= a2.bits,
    ensures
        is_amount(double::product(a, a)),
        is_amount(double::product(a2, a2)),
        double::product(a, a).bits <= double::product(a2, a2).bits,
{
    if a2.finite() {
        lemma_product_grows(a, a, a2, a2);
    } else {
        if a.finite() {
            lemma_product_grows(a, a, a, a);
        }
        double::lemma_product(a, a);
        double::lemma_product(a2, a2);
        lemma_amount_parts(a);
        lemma_amount_parts(a2);
        lemma_amount_parts(double::product(a, a));
        lemma_amount_parts(double::product(a2, a2));
    }
}

/// Twice an amount, or any other positive finite multiple of it, is an amount
/// and grows with it.
pub proof fn lemma_multiple_grows(k: Double, a: Double, a2: Double)
    requires
        is_amount(k),
        k.finite(),
        k.bits > 0,
        is_amount(a),
        is_amount(a2),
        a.bits <= a2.bits,
    ensures
        is_amount(double::product(k, a)),
        is_amount(double::product(k, a2)),
        double::product(k, a).bits <= double::product(k, a2).bits,
{
    if a2.finite() {
        lemma_product_grows(k, a, k, a2);
    } else {
        if a.finite() {
            lemma_product_grows(k, a, k, a);
        }
        double::lemma_product(k, a);
        double::lemma_product(k, a2);
        lemma_amount_parts(k);
        lemma_amount_parts(a);
        lemma_amount_parts(a2);
        lemma_amount_parts(double::product(k, a));
        lemma_amount_parts(double::product(k, a2));
    }
}

/// An amount divided by a positive finite double is an amount, and grows with
/// it.
pub proof fn lemma_quotient_grows(a: Double, a2: Double, d: Double)
    requires
        is_amount(a),
        is_amount(a2),
        is_amount(d),
        d.finite(),
        d.bits > 0,
        a.bits <= a2.bits,
    ensures
        is_amount(double::quotient(a, d)),
        is_amount(double::quotient(a2, d)),
        double::quotient(a, d).bits <= double::quotient(a2, d).bits,
{
    let (r, r2) = (double::quotient(a, d), double::quotient(a2, d));
    double::lemma_quotient(a, d);
    double::lemma_quotient(a2, d);
    lemma_amount_parts(a);
    lemma_amount_parts(a2);
    lemma_amount_parts(d);
    lemma_amount_parts(r);
    lemma_amount_parts(r2);
    if a2.finite() {
        lemma_amounts_are_ordered(a, a2);
        let (u, u2) = (magnitude::units(a.magnitude()), magnitude::units(a2.magnitude()));
        let p = power2::pow2(1074) as int;
        let v = magnitude::units(d.magnitude());
        power2::lemma_pow2_pos(1074);
        assert(magnitude::units(0) == 0) by (nonlinear_arith);
        magnitude::lemma_units_increase(0, d.magnitude());
        assert((u * p) * v <= (u2 * p) * v) by (nonlinear_arith)
            requires
                u <= u2,
                p > 0,
                v > 0,
        ;
        magnitude::lemma_rounding_monotone(u * p, v, r.magnitude(), u2 * p, v, r2.magnitude());
    }
}

/// The root of an amount is an amount, and grows with it.
pub proof fn lemma_root_grows(a: Double, a2: Double)
    requires
        is_amount(a),
        is_amount(a2),
        a.bits <= a2.bits,
    ensures
        is_amount(double::root(a)),
        is_amount(double::root(a2)),
        double::root(a).bits <= double::root(a2).bits,
{
    let (r, r2) = (double::root(a), double::root(a2));
    double::lemma_root(a);
    double::lemma_root(a2);
    lemma_amount_parts(a);
    lemma_amount_parts(a2);
    lemma_amount_parts(r);
    lemma_amount_parts(r2);
    if a.bits > 0 && a2.finite() {
        lemma_amounts_are_ordered(a, a2);
        let (u, u2) = (magnitude::units(a.magnitude()), magnitude::units(a2.magnitude()));
        let p = power2::pow2(1074) as int;
        power2::lemma_pow2_pos(1074);
        assert(u * p <= u2 * p) by (nonlinear_arith)
            requires
                u <= u2,
                p > 0,
        ;
        magnitude::lemma_root_monotone(u * p, r.magnitude(), u2 * p, r2.magnitude());
    }
}

/// A number divided by one is itself.
pub proof fn lemma_over_one(a: Double)
    requires
        !a.nan(),
    ensures
        double::quotient(a, Double { bits: 0x3ff0_0000_0000_0000 }) == a,
{
    let one = Double { bits: 0x3ff0_0000_0000_0000 };
    let d = power2::pow2(1074) as int;
    power2::lemma_pow2_pos(1074);
    lemma_amount_parts(one);
    lemma_units_of_one();
    if a.finite() {
        magnitude::lemma_exact_rounds(a.magnitude(), d);
    }
    double::lemma_quotient(a, one);
    double::lemma_quotient_unique(a, one, double::quotient(a, one), a);
}

/// Adding zero to an amount changes nothing.
pub proof fn lemma_plus_zero(a: Double)
    requires
        is_amount(a),
    ensures
        double::sum(a, Double { bits: 0 }) == a,
{
    let zero = Double { bits: 0 };
    lemma_amount_parts(a);
    lemma_amount_parts(zero);
    assert(magnitude::units(0) == 0) by (nonlinear_arith);
    if a.bits > 0 {
        magnitude::lemma_units_increase(0, a.bits as int);
    }
    if a.finite() {
        magnitude::lemma_exact_rounds(a.magnitude(), 1);
    }
    double::lemma_sum(a, zero);
    double::lemma_sum_unique(a, zero, double::sum(a, zero), a);
}

/// Zero times a finite amount is zero.
pub proof fn lemma_zero_times(a: Double)
    requires
        is_amount(a),
        a.finite(),
    ensures
        double::product(Double { bits: 0 }, a) == (Double { bits: 0 }),
{
    let zero = Double { bits: 0 };
    lemma_amount_parts(a);
    lemma_amount_parts(zero);
    let d = power2::pow2(1074) as int;
    power2::lemma_pow2_pos(1074);
    assert(magnitude::units(0) == 0) by (nonlinear_arith);
    let u = magnitude::units(a.magnitude());
    assert(magnitude::units(0) * u == 0 * d) by (nonlinear_arith)
        requires
            magnitude::units(0) == 0,
    ;
    magnitude::lemma_exact_rounds(0, d);
    double::lemma_product(zero, a);
    double::lemma_product_unique(zero, a, double::product(zero, a), zero);
}

/// A finite amount times zero is zero.
pub proof fn lemma_times_zero(a: Double)
    requires
        is_amount(a),
        a.finite(),
    ensures
        double::product(a, Double { bits: 0 }) == (Double { bits: 0 }),
{
    let zero = Double { bits: 0 };
    lemma_amount_parts(a);
    lemma_amount_parts(zero);
    let d = power2::pow2(1074) as int;
    power2::lemma_pow2_pos(1074);
    assert(magnitude::units(0) == 0) by (nonlinear_arith);
    let u = magnitude::units(a.magnitude());
    assert(u * magnitude::units(0) == 0 * d) by (nonlinear_arith)
        requires
            magnitude::units(0) == 0,
    ;
    magnitude::lemma_exact_rounds(0, d);
    double::lemma_product(a, zero);
    double::lemma_product_unique(a, zero, double::product(a, zero), zero);
}

/// Zero divided by a positive number is zero.
pub proof fn lemma_zero_over(a: Double)
    requires
        is_amount(a),
        a.finite(),
        a.bits > 0,
    ensures
        double::quotient(Double { bits: 0 }, a) == (Double { bits: 0 }),
{
    let zero = Double { bits: 0 };
    lemma_amount_parts(a);
    lemma_amount_parts(zero);
    let d = power2::pow2(1074) as int;
    assert(magnitude::units(0) == 0) by (nonlinear_arith);
    magnitude::lemma_units_increase(0, a.magnitude());
    let u = magnitude::units(a.magnitude());
    assert(magnitude::units(0) * d == 0 * u) by (nonlinear_arith)
        requires
            magnitude::units(0) == 0,
    ;
    magnitude::lemma_exact_rounds(0, u);
    double::lemma_quotient(zero, a);
    double::lemma_quotient_unique(zero, a, double::quotient(zero, a), zero);
}

/// The root of the square of an amount is the amount, though the square was rounded,
/// where it is neither infinite nor below the normal doubles.
pub proof fn lemma_root_of_square(a: Double)
    requires
        is_amount(a),
        magnitude::LEADING <= double::product(a, a).bits < INFINITY,
    ensures
        double::root(double::product(a, a)) == a,
{
    let s = double::product(a, a);
    double::lemma_product(a, a);
    lemma_amount_parts(a);
    lemma_amount_parts(s);
    let d = power2::pow2(1074) as int;
    power2::lemma_pow2_pos(1074);
    let u = magnitude::units(a.magnitude());
    if a.bits < magnitude::LEADING {
        lemma_subnormal_square(a.magnitude(), s.magnitude());
    }
    magnitude::lemma_units_increase(0, s.bits as int);
    assert(magnitude::units(0) == 0) by (nonlinear_arith);
    magnitude::lemma_root_of_square(a.magnitude(), s.magnitude());
    double::lemma_root(s);
    double::lemma_root_unique(s, double::root(s), a);
}

proof fn lemma_subnormal(m: int)
    requires
        0 <= m < magnitude::LEADING,
    ensures
        magnitude::units(m) == m,
{
    power2::lemma2_to64();
    assert(m * 1 == m) by (nonlinear_arith);
}

/// The square of a double below the normal ones is not normal.
proof fn lemma_subnormal_square(m: int, p: int)
    requires
        0 <= m < magnitude::LEADING,
        magnitude::ratio_rounds_to(
            magnitude::units(m) * magnitude::units(m),
            power2::pow2(1074) as int,
            p,
        ),
    ensures
        p < magnitude::LEADING,
{
    let d = power2::pow2(1074) as int;
    let u = magnitude::units(m);
    power2::lemma2_to64();
    power2::lemma2_to64_rest();
    power2::lemma_pow2_pos(1074);
    lemma_subnormal(m);
    if p >= magnitude::LEADING {
        let l = magnitude::LEADING as int;
        power2::lemma_pow2_adds(64, 1010);
        power2::lemma_pow2_pos(1010);
        if p > l {
            magnitude::lemma_units_increase(l - 1, p - 1);
        }
        magnitude::lemma_units_increase(l - 1, p);
        lemma_subnormal(l - 1);
        let w = magnitude::units(p - 1) + magnitude::units(p);
        assert(w >= l);
        assert(u * u < 0x10_0000_0000_0000 * 0x10_0000_0000_0000) by (nonlinear_arith)
            requires
                0 <= u < 0x10_0000_0000_0000,
        ;
        assert(w * d >= 0x10_0000_0000_0000 * d) by (nonlinear_arith)
            requires
                w >= 0x10_0000_0000_0000,
                d >= 1,
        ;
    }
}

/// The square of a finite double is an amount.
pub proof fn lemma_square_is_amount(a: Double)
    requires
        a.finite(),
    ensures
        is_amount(double::product(a, a)),
{
    double::lemma_product(a, a);
    lemma_amount_parts(double::product(a, a));
}

/// A positive finite amount times a negative finite double is negative.
pub proof fn lemma_scaled_negative(a: Double, b: Double)
    requires
        is_amount(a),
        a.finite(),
        b.is_negative(),
        b.finite(),
    ensures
        double::product(a, b).is_negative(),
        double::product(a, b).magnitude() <= INFINITY,
{
    double::lemma_product(a, b);
    lemma_amount_parts(a);
}

/// A negative double, infinity included, times a positive finite amount is negative.
pub proof fn lemma_negative_scaled(a: Double, b: Double)
    requires
        a.is_negative(),
        a.magnitude() <= INFINITY,
        is_amount(b),
        b.finite(),
        b.bits > 0,
    ensures
        double::product(a, b).is_negative(),
        double::product(a, b).magnitude() <= INFINITY,
{
    double::lemma_product(a, b);
    lemma_amount_parts(b);
}

/// What 1.0 counts in units.
proof fn lemma_units_of_one()
    ensures
        magnitude::units(0x3ff0_0000_0000_0000) == power2::pow2(1074),
        magnitude::units(0x4000_0000_0000_0000) == 2 * power2::pow2(1074),
{
    power2::lemma_pow2_adds(52, 1022);
    power2::lemma_pow2_adds(52, 1023);
    power2::lemma_pow2_unfold(1075);
    power2::lemma2_to64();
    power2::lemma2_to64_rest();
    assert(magnitude::exponent(0x3ff0_0000_0000_0000) == 1022);
    assert(magnitude::significand(0x3ff0_0000_0000_0000) == 0x10_0000_0000_0000);
    assert(magnitude::exponent(0x4000_0000_0000_0000) == 1023);
    assert(magnitude::significand(0x4000_0000_0000_0000) == 0x10_0000_0000_0000);
}

/// The root of 1.0 is 1.0.
pub proof fn lemma_root_of_one()
    ensures
        double::root(Double { bits: 0x3ff0_0000_0000_0000 }) == (Double {
            bits: 0x3ff0_0000_0000_0000,
        }),
{
    let one = Double { bits: 0x3ff0_0000_0000_0000 };
    let d = power2::pow2(1074) as int;
    power2::lemma_pow2_pos(1074);
    lemma_units_of_one();
    lemma_amount_parts(one);
    magnitude::lemma_exact_rounds(one.magnitude(), d);
    double::lemma_product(one, one);
    double::lemma_product_unique(one, one, double::product(one, one), one);
    lemma_root_of_square(one);
}

/// One and an amount of at least one are at least two.
pub proof fn lemma_one_and_more(a: Double)
    requires
        is_amount(a),
        a.bits >= 0x3ff0_0000_0000_0000,
    ensures
        is_amount(double::sum(Double { bits: 0x3ff0_0000_0000_0000 }, a)),
        double::sum(Double { bits: 0x3ff0_0000_0000_0000 }, a).bits >= 0x4000_0000_0000_0000,
{
    let one = Double { bits: 0x3ff0_0000_0000_0000 };
    let two = Double { bits: 0x4000_0000_0000_0000 };
    power2::lemma_pow2_pos(1074);
    lemma_units_of_one();
    lemma_amount_parts(one);
    lemma_amount_parts(two);
    magnitude::lemma_exact_rounds(two.magnitude(), 1);
    double::lemma_sum(one, one);
    double::lemma_sum_unique(one, one, double::sum(one, one), two);
    lemma_sum_grows(one, one, one, a);
}

/// Two divided by two or more is one at most.
pub proof fn lemma_two_over(a: Double)
    requires
        is_amount(a),
        a.bits >= 0x4000_0000_0000_0000,
    ensures
        is_amount(double::quotient(Double { bits: 0x4000_0000_0000_0000 }, a)),
        double::quotient(Double { bits: 0x4000_0000_0000_0000 }, a).bits
            <= 0x3ff0_0000_0000_0000,
{
    let (one, two) = (
        Double { bits: 0x3ff0_0000_0000_0000 },
        Double { bits: 0x4000_0000_0000_0000 },
    );
    let r = double::quotient(two, a);
    let d = power2::pow2(1074) as int;
    power2::lemma_pow2_pos(1074);
    lemma_units_of_one();
    lemma_amount_parts(two);
    lemma_amount_parts(a);
    double::lemma_quotient(two, a);
    lemma_amount_parts(r);
    if a.finite() {
        let (u, v) = (magnitude::units(two.magnitude()), magnitude::units(a.magnitude()));
        lemma_amounts_are_ordered(two, a);
        magnitude::lemma_exact_rounds(one.magnitude(), u);
        assert((u * d) * u <= (d * u) * v) by (nonlinear_arith)
            requires
                0 < u <= v,
                d > 0,
        ;
        magnitude::lemma_rounding_monotone(u * d, v, r.magnitude(), d * u, u, one.magnitude());
    }
}

/// A finite double times an amount of at most one keeps its sign and is no larger.
pub proof fn lemma_shrinks(a: Double, s: Double)
    requires
        a.finite(),
        is_amount(s),
        s.bits <= 0x3ff0_0000_0000_0000,
    ensures
        double::product(a, s).is_negative() == a.is_negative(),
        double::product(a, s).magnitude() <= a.magnitude(),
{
    let one = Double { bits: 0x3ff0_0000_0000_0000 };
    let r = double::product(a, s);
    let d = power2::pow2(1074) as int;
    power2::lemma_pow2_pos(1074);
    lemma_units_of_one();
    lemma_amount_parts(s);
    lemma_amount_parts(one);
    lemma_amounts_are_ordered(s, one);
    magnitude::lemma_units_nonnegative(a.magnitude());
    let (u, v) = (magnitude::units(a.magnitude()), magnitude::units(s.magnitude()));
    double::lemma_product(a, s);
    magnitude::lemma_exact_rounds(a.magnitude(), d);
    assert((u * v) * d <= (u * d) * d) by (nonlinear_arith)
        requires
            0 <= u,
            0 <= v <= d,
            d > 0,
    ;
    magnitude::lemma_rounding_monotone(u * v, d, r.magnitude(), u * d, d, a.magnitude());
}

} // verus!
