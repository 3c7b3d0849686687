//! Doubles as real numbers, and how far an operation's result is from the exact one.
use vstd::arithmetic::power2;
use vstd::prelude::*;

use crate::double;
use crate::double::Double;
use crate::magnitude;
use crate::magnitude::{INFINITY, LEADING};

verus! {

/// The real number that a finite double is.
pub open spec fn real_of(d: Double) -> real {
    d.value() as real / unit_count()
}

/// Units of doubles in one: 2^1074.
pub open spec fn unit_count() -> real {
    (power2::pow2(1074) as int) as real
}

/// Least positive double.
pub open spec fn tiny() -> real {
    1real / unit_count()
}

/// 2^1000; operations whose exact result is no larger do not overflow.
pub open spec fn limit() -> real {
    (power2::pow2(1000) as int) as real
}

/// Relative error of an operation: 2^-52.
pub open spec fn unit() -> real {
    1real / 4503599627370496real
}

/// Distance from zero.
pub open spec fn size(x: real) -> real {
    if x < 0real {
        -x
    } else {
        x
    }
}

/// `a` and `b` are no more than `e` apart.
pub open spec fn within(a: real, b: real, e: real) -> bool {
    a - b <= e && b - a <= e
}

/// How far a ratio is from the double that it rounds to.
proof fn lemma_rounding_error(num: int, den: int, m: int)
    requires
        0 <= num,
        0 < den,
        m < INFINITY,
        magnitude::ratio_rounds_to(num, den, m),
    ensures
        ({
            let most = if magnitude::units(m) > LEADING {
                magnitude::units(m)
            } else {
                LEADING as int
            };
            let off = num - magnitude::units(m) * den;
            &&& 0x20_0000_0000_0000 * off <= most * den
            &&& -(0x20_0000_0000_0000 * off) <= most * den
        }),
{
    let u = magnitude::units(m);
    let g = power2::pow2(magnitude::exponent(m)) as int;
    let l = LEADING as int;
    let most = if u > l {
        u
    } else {
        l
    };
    magnitude::lemma_units_step(m);
    magnitude::lemma_units_nonnegative(m);
    power2::lemma2_to64();
    assert(l * g <= most) by {
        if m < l {
            assert(g == 1);
        } else {
            assert(l * g <= magnitude::significand(m) * g) by (nonlinear_arith)
                requires
                    l <= magnitude::significand(m),
                    g >= 0,
            ;
        }
    }
    assert(2 * (num - u * den) <= g * den) by (nonlinear_arith)
        requires
            2 * num <= (u + (u + g)) * den,
    ;
    let k = num - u * den;
    assert(0x20_0000_0000_0000 * k <= most * den) by (nonlinear_arith)
        requires
            2 * k <= g * den,
            l * g <= most,
            l == 0x10_0000_0000_0000,
            den > 0,
    ;
    if m > 0 {
        magnitude::lemma_units_step(m - 1);
        let f = power2::pow2(magnitude::exponent(m - 1)) as int;
        magnitude::lemma_exponent_increases(m - 1, m);
        if magnitude::exponent(m - 1) < magnitude::exponent(m) {
            power2::lemma_pow2_strictly_increases(
                magnitude::exponent(m - 1),
                magnitude::exponent(m),
            );
        }
        assert(f <= g);
        assert(-(2 * k) <= g * den) by (nonlinear_arith)
            requires
                2 * num >= ((u - f) + u) * den,
                k == num - u * den,
                f <= g,
                den > 0,
        ;
        assert(-(0x20_0000_0000_0000 * k) <= most * den) by (nonlinear_arith)
            requires
                -(2 * k) <= g * den,
                l * g <= most,
                l == 0x10_0000_0000_0000,
                den > 0,
        ;
    } else {
        assert(magnitude::units(0) == 0) by (nonlinear_arith);
        assert(u * den == 0) by (nonlinear_arith)
            requires
                u == 0,
        ;
        assert(most * den >= 0) by (nonlinear_arith)
            requires
                most >= 0,
                den > 0,
        ;
    }
}

/// What 2^1000 is in units.
proof fn lemma_limit_units()
    ensures
        magnitude::units(0x7e70_0000_0000_0000) == power2::pow2(1000) * power2::pow2(1074),
{
    power2::lemma_pow2_adds(52, 2022);
    power2::lemma_pow2_adds(1000, 1074);
    power2::lemma2_to64();
    power2::lemma2_to64_rest();
    assert(magnitude::exponent(0x7e70_0000_0000_0000) == 2022);
    assert(magnitude::significand(0x7e70_0000_0000_0000) == 0x10_0000_0000_0000);
}

/// A ratio of no more than 2^1000 does not overflow.
proof fn lemma_no_overflow(num: int, den: int, m: int)
    requires
        0 < den,
        num <= (power2::pow2(1000) * power2::pow2(1074)) * den,
        magnitude::ratio_rounds_to(num, den, m),
    ensures
        m < INFINITY,
{
    let top = 0x7e70_0000_0000_0000int;
    let u = magnitude::units(top);
    lemma_limit_units();
    magnitude::lemma_exact_rounds(top, den);
    assert(num * den <= (u * den) * den) by (nonlinear_arith)
        requires
            num <= u * den,
            den > 0,
    ;
    magnitude::lemma_rounding_monotone(num, den, m, u * den, den, top);
}

/// The numbers of this module are positive and far apart.
pub proof fn lemma_scales()
    ensures
        unit_count() > 340282366920938463463374607431768211456real,
        limit() > 340282366920938463463374607431768211456real,
        tiny() > 0real,
        tiny() * unit_count() == 1real,
        tiny() * 340282366920938463463374607431768211456real <= 1real,
{
    power2::lemma2_to64();
    power2::lemma_pow2_adds(64, 64);
    power2::lemma_pow2_strictly_increases(128, 1074);
    power2::lemma_pow2_strictly_increases(128, 1000);
    let p = unit_count();
    let t = tiny();
    assert(t > 0real && t * p == 1real) by (nonlinear_arith)
        requires
            t == 1real / p,
            p > 340282366920938463463374607431768211456real,
    ;
    assert(t * 340282366920938463463374607431768211456real <= 1real) by (nonlinear_arith)
        requires
            t * p == 1real,
            t > 0real,
            p > 340282366920938463463374607431768211456real,
    ;
}

/// A double that is not negative, in units.
pub proof fn lemma_parts(d: Double)
    ensures
        magnitude::units(d.magnitude()) >= 0,
        d.is_negative() ==> d.value() == -magnitude::units(d.magnitude()),
        !d.is_negative() ==> d.value() == magnitude::units(d.magnitude()),
        real_of(d) * unit_count() == d.value() as real,
{
    magnitude::lemma_units_nonnegative(d.magnitude());
    lemma_scales();
    let (r, v, p) = (real_of(d), d.value() as real, unit_count());
    assert(r * p == v) by (nonlinear_arith)
        requires
            r == v / p,
            p > 0real,
    ;
}

/// The sum of finite doubles is the exact sum but for the rounding.
pub proof fn lemma_sum(a: Double, b: Double)
    requires
        a.finite(),
        b.finite(),
        size(real_of(a) + real_of(b)) <= limit(),
    ensures
        double::sum(a, b).finite(),
        within(
            real_of(double::sum(a, b)),
            real_of(a) + real_of(b),
            unit() * size(real_of(a) + real_of(b)),
        ),
{
    let r = double::sum(a, b);
    double::lemma_sum(a, b);
    lemma_scales();
    lemma_parts(a);
    lemma_parts(b);
    lemma_parts(r);
    let p = unit_count();
    let exact = a.value() + b.value();
    let x = real_of(a) + real_of(b);
    let num = if exact < 0 {
        -exact
    } else {
        exact
    };
    let m = r.magnitude();
    let u = magnitude::units(m);
    assert(x * p == exact as real) by (nonlinear_arith)
        requires
            x == real_of(a) + real_of(b),
            real_of(a) * p == a.value() as real,
            real_of(b) * p == b.value() as real,
            exact as real == a.value() as real + b.value() as real,
    ;
    assert(size(x) * p == num as real) by (nonlinear_arith)
        requires
            x * p == exact as real,
            p > 0real,
            size(x) == (if x < 0real {
                -x
            } else {
                x
            }),
            num == (if exact < 0 {
                -exact
            } else {
                exact
            }),
    ;
    let cap = power2::pow2(1000) * power2::pow2(1074);
    assert(num as real <= cap as int as real) by (nonlinear_arith)
        requires
            size(x) * p == num as real,
            size(x) <= limit(),
            p > 0real,
            p == power2::pow2(1074) as int as real,
            limit() == power2::pow2(1000) as int as real,
            cap == power2::pow2(1000) * power2::pow2(1074),
    ;
    if exact == 0 {
        assert(magnitude::units(0) == 0) by (nonlinear_arith);
        assert(real_of(r) == 0real) by (nonlinear_arith)
            requires
                real_of(r) * p == 0real,
                p > 0real,
        ;
        assert(x == 0real) by (nonlinear_arith)
            requires
                x * p == 0real,
                p > 0real,
        ;
    } else {
        lemma_no_overflow(num, 1, m);
        lemma_rounding_error(num, 1, m);
        let off = num - u;
        // Below the normal doubles whole units are exact.
        assert(0x20_0000_0000_0000 * off <= u && -(0x20_0000_0000_0000 * off) <= u);
        let s = real_of(r);
        let sized = size(s);
        assert(sized * p == u as real) by (nonlinear_arith)
            requires
                s * p == r.value() as real,
                r.value() == u || r.value() == -u,
                u >= 0,
                p > 0real,
                sized == (if s < 0real {
                    -s
                } else {
                    s
                }),
        ;
        lemma_relative(size(x), sized, num, u, p);
        assert(u > 0 ==> (s < 0real <==> exact < 0)) by (nonlinear_arith)
            requires
                s * p == r.value() as real,
                r.value() == (if exact < 0 {
                    -u
                } else {
                    u
                }),
                p > 0real,
        ;
        assert(u > 0);
        assert(x < 0real <==> exact < 0) by (nonlinear_arith)
            requires
                x * p == exact as real,
                p > 0real,
        ;
    }
}

/// From units to reals: an error of half a unit in the last of 53 places.
proof fn lemma_relative(x: real, r: real, num: int, u: int, p: real)
    requires
        p > 0real,
        x * p == num as real,
        r * p == u as real,
        x >= 0real,
        0x20_0000_0000_0000 * (num - u) <= u,
        -(0x20_0000_0000_0000 * (num - u)) <= u,
    ensures
        within(r, x, unit() * x),
{
    let n = num as real;
    let v = u as real;
    assert(9007199254740992real * (n - v) <= v);
    assert(9007199254740992real * (v - n) <= v);
    assert(9007199254740992real * (x - r) <= r && 9007199254740992real * (r - x) <= r)
        by (nonlinear_arith)
        requires
            9007199254740992real * (n - v) <= v,
            9007199254740992real * (v - n) <= v,
            x * p == n,
            r * p == v,
            p > 0real,
    ;
    assert(within(r, x, unit() * x)) by (nonlinear_arith)
        requires
            9007199254740992real * (x - r) <= r,
            9007199254740992real * (r - x) <= r,
            x >= 0real,
            unit() == 1real / 4503599627370496real,
            within(r, x, unit() * x) == (r - x <= unit() * x && x - r <= unit() * x),
    ;
}

/// From a ratio of units to reals: a relative error, or less than one unit.
proof fn lemma_relative_or_tiny(x: real, r: real, num: int, den: int, u: int, most: int)
    requires
        x >= 0real,
        0 < den,
        0 <= u,
        x * unit_count() * (den as real) == num as real,
        r * unit_count() == u as real,
        most == (if u > 0x10_0000_0000_0000 {
            u
        } else {
            0x10_0000_0000_0000int
        }),
        0x20_0000_0000_0000 * (num - u * den) <= most * den,
        -(0x20_0000_0000_0000 * (num - u * den)) <= most * den,
    ensures
        within(r, x, unit() * x + tiny()),
{
    lemma_scales();
    let (p, t) = (unit_count(), tiny());
    let (n, d, v, w) = (num as real, den as real, u as real, most as real);
    let e = (num - u * den) as real;
    let h = (most * den) as real;
    assert(e == n - v * d && h == w * d) by (nonlinear_arith)
        requires
            e == (num - u * den) as real,
            h == (most * den) as real,
            n == num as real,
            v == u as real,
            d == den as real,
            w == most as real,
    ;
    let xp = x * p;
    assert(9007199254740992real * (xp - v) <= w && 9007199254740992real * (v - xp) <= w)
        by (nonlinear_arith)
        requires
            xp * d == n,
            e == n - v * d,
            h == w * d,
            9007199254740992real * e <= h,
            -(9007199254740992real * e) <= h,
            d > 0real,
    ;
    if u > 0x10_0000_0000_0000 {
        assert(9007199254740992real * (x - r) <= r && 9007199254740992real * (r - x)
            <= r) by (nonlinear_arith)
            requires
                9007199254740992real * (xp - v) <= v,
                9007199254740992real * (v - xp) <= v,
                xp == x * p,
                r * p == v,
                p > 0real,
        ;
        assert(within(r, x, unit() * x + t)) by (nonlinear_arith)
            requires
                9007199254740992real * (x - r) <= r,
                9007199254740992real * (r - x) <= r,
                x >= 0real,
                t > 0real,
                unit() == 1real / 4503599627370496real,
                within(r, x, unit() * x + t) == (r - x <= unit() * x + t && x - r <= unit() * x
                    + t),
        ;
    } else {
        assert(x - r <= t && r - x <= t) by (nonlinear_arith)
            requires
                9007199254740992real * (xp - v) <= 4503599627370496real,
                9007199254740992real * (v - xp) <= 4503599627370496real,
                xp == x * p,
                r * p == v,
                t * p == 1real,
                p > 0real,
        ;
        assert(unit() * x >= 0real) by (nonlinear_arith)
            requires
                x >= 0real,
                unit() == 1real / 4503599627370496real,
        ;
    }
}

/// The size of a double, in units.
proof fn lemma_size(d: Double)
    ensures
        size(real_of(d)) * unit_count() == magnitude::units(d.magnitude()) as real,
        magnitude::units(d.magnitude()) >= 0,
        d.magnitude() == 0 <==> real_of(d) == 0real,
        real_of(d) < 0real ==> d.is_negative(),
        real_of(d) > 0real ==> !d.is_negative(),
{
    lemma_parts(d);
    lemma_scales();
    let (s, p, u) = (real_of(d), unit_count(), magnitude::units(d.magnitude()));
    assert(size(s) * p == u as real) by (nonlinear_arith)
        requires
            s * p == d.value() as real,
            d.value() == u || d.value() == -u,
            u >= 0,
            p > 0real,
            size(s) == (if s < 0real {
                -s
            } else {
                s
            }),
    ;
    assert(magnitude::units(0) == 0) by (nonlinear_arith);
    if d.magnitude() > 0 {
        magnitude::lemma_units_increase(0, d.magnitude());
        assert(s != 0real) by (nonlinear_arith)
            requires
                size(s) * p == u as real,
                u > 0,
                size(s) == (if s < 0real {
                    -s
                } else {
                    s
                }),
        ;
    } else {
        assert(s == 0real) by (nonlinear_arith)
            requires
                s * p == 0real,
                p > 0real,
        ;
    }
    assert((s < 0real ==> d.value() < 0) && (s > 0real ==> d.value() > 0))
        by (nonlinear_arith)
        requires
            s * p == d.value() as real,
            p > 0real,
    ;
}

/// What holds of the sizes holds of the signed numbers.
proof fn lemma_signed(x: real, s: real, e: real, negative: bool)
    requires
        within(size(s), size(x), e),
        negative ==> x <= 0real && s <= 0real,
        !negative ==> x >= 0real && s >= 0real,
    ensures
        within(s, x, e),
{
}

/// The product of finite doubles is the exact product but for the rounding.
pub proof fn lemma_product(a: Double, b: Double)
    requires
        a.finite(),
        b.finite(),
        size(real_of(a) * real_of(b)) <= limit(),
    ensures
        double::product(a, b).finite(),
        within(
            real_of(double::product(a, b)),
            real_of(a) * real_of(b),
            unit() * size(real_of(a) * real_of(b)) + tiny(),
        ),
{
    let r = double::product(a, b);
    double::lemma_product(a, b);
    lemma_scales();
    lemma_size(a);
    lemma_size(b);
    lemma_size(r);
    let p = unit_count();
    let (x, s) = (real_of(a) * real_of(b), real_of(r));
    let (ua, ub) = (magnitude::units(a.magnitude()), magnitude::units(b.magnitude()));
    let (sa, sb) = (size(real_of(a)), size(real_of(b)));
    let (num, den) = (ua * ub, power2::pow2(1074) as int);
    let u = magnitude::units(r.magnitude());
    assert(size(x) == sa * sb) by (nonlinear_arith)
        requires
            x == real_of(a) * real_of(b),
            sa == (if real_of(a) < 0real {
                -real_of(a)
            } else {
                real_of(a)
            }),
            sb == (if real_of(b) < 0real {
                -real_of(b)
            } else {
                real_of(b)
            }),
            size(x) == (if x < 0real {
                -x
            } else {
                x
            }),
    ;
    assert(size(x) * p * (den as real) == num as real) by (nonlinear_arith)
        requires
            size(x) == sa * sb,
            sa * p == ua as real,
            sb * p == ub as real,
            p == den as real,
            num == ua * ub,
    ;
    power2::lemma_pow2_pos(1074);
    let k = power2::pow2(1000) * power2::pow2(1074);
    assert(num <= k * den) by {
        let (n, c, q) = (num as real, k as int as real, den as real);
        assert(n <= c * q) by (nonlinear_arith)
            requires
                size(x) * p * q == n,
                size(x) <= limit(),
                p > 0real,
                q > 0real,
                p == power2::pow2(1074) as int as real,
                limit() == power2::pow2(1000) as int as real,
                c == (power2::pow2(1000) * power2::pow2(1074)) as int as real,
        ;
        assert(c * q == (k * den) as real) by (nonlinear_arith)
            requires
                c == k as int as real,
                q == den as real,
        ;
    }
    lemma_no_overflow(num, den, r.magnitude());
    assert(num >= 0) by (nonlinear_arith)
        requires
            num == ua * ub,
            ua >= 0,
            ub >= 0,
    ;
    lemma_rounding_error(num, den, r.magnitude());
    let most = if u > 0x10_0000_0000_0000 {
        u
    } else {
        0x10_0000_0000_0000int
    };
    lemma_relative_or_tiny(size(x), size(s), num, den, u, most);
    let negative = r.is_negative();
    assert((negative ==> x <= 0real) && (!negative ==> x >= 0real)) by (nonlinear_arith)
        requires
            negative == (a.is_negative() != b.is_negative()),
            x == real_of(a) * real_of(b),
            real_of(a) < 0real ==> a.is_negative(),
            real_of(a) > 0real ==> !a.is_negative(),
            real_of(b) < 0real ==> b.is_negative(),
            real_of(b) > 0real ==> !b.is_negative(),
    ;
    lemma_signed(x, s, unit() * size(x) + tiny(), negative);
}

/// The quotient of finite doubles is the exact quotient but for the rounding.
pub proof fn lemma_quotient(a: Double, b: Double)
    requires
        a.finite(),
        b.finite(),
        real_of(b) != 0real,
        size(real_of(a) / real_of(b)) <= limit(),
    ensures
        double::quotient(a, b).finite(),
        within(
            real_of(double::quotient(a, b)),
            real_of(a) / real_of(b),
            unit() * size(real_of(a) / real_of(b)) + tiny(),
        ),
{
    let r = double::quotient(a, b);
    double::lemma_quotient(a, b);
    lemma_scales();
    lemma_size(a);
    lemma_size(b);
    lemma_size(r);
    let p = unit_count();
    let (x, s) = (real_of(a) / real_of(b), real_of(r));
    let (ua, ub) = (magnitude::units(a.magnitude()), magnitude::units(b.magnitude()));
    let (sa, sb) = (size(real_of(a)), size(real_of(b)));
    let (num, den) = (ua * power2::pow2(1074) as int, ub);
    let u = magnitude::units(r.magnitude());
    assert(x * real_of(b) == real_of(a)) by (nonlinear_arith)
        requires
            x == real_of(a) / real_of(b),
            real_of(b) != 0real,
    ;
    assert(size(x) * sb == sa) by (nonlinear_arith)
        requires
            x * real_of(b) == real_of(a),
            sa == (if real_of(a) < 0real {
                -real_of(a)
            } else {
                real_of(a)
            }),
            sb == (if real_of(b) < 0real {
                -real_of(b)
            } else {
                real_of(b)
            }),
            size(x) == (if x < 0real {
                -x
            } else {
                x
            }),
    ;
    assert(ub > 0) by (nonlinear_arith)
        requires
            sb * p == ub as real,
            sb > 0real,
            p > 0real,
    ;
    assert(size(x) * p * (den as real) == num as real) by (nonlinear_arith)
        requires
            size(x) * sb == sa,
            sa * p == ua as real,
            sb * p == ub as real,
            p == power2::pow2(1074) as int as real,
            num == ua * power2::pow2(1074) as int,
            den == ub,
    ;
    let k = power2::pow2(1000) * power2::pow2(1074);
    assert(num <= k * den) by {
        let (n, c, q) = (num as real, k as int as real, den as real);
        assert(n <= c * q) by (nonlinear_arith)
            requires
                size(x) * p * q == n,
                size(x) <= limit(),
                p > 0real,
                q > 0real,
                p == power2::pow2(1074) as int as real,
                limit() == power2::pow2(1000) as int as real,
                c == (power2::pow2(1000) * power2::pow2(1074)) as int as real,
        ;
        assert(c * q == (k * den) as real) by (nonlinear_arith)
            requires
                c == k as int as real,
                q == den as real,
        ;
    }
    lemma_no_overflow(num, den, r.magnitude());
    power2::lemma_pow2_pos(1074);
    assert(num >= 0) by (nonlinear_arith)
        requires
            num == ua * power2::pow2(1074) as int,
            ua >= 0,
            power2::pow2(1074) > 0,
    ;
    lemma_rounding_error(num, den, r.magnitude());
    let most = if u > 0x10_0000_0000_0000 {
        u
    } else {
        0x10_0000_0000_0000int
    };
    lemma_relative_or_tiny(size(x), size(s), num, den, u, most);
    let negative = r.is_negative();
    assert((negative ==> x <= 0real) && (!negative ==> x >= 0real)) by (nonlinear_arith)
        requires
            negative == (a.is_negative() != b.is_negative()),
            x * real_of(b) == real_of(a),
            real_of(b) != 0real,
            real_of(a) < 0real ==> a.is_negative(),
            real_of(a) > 0real ==> !a.is_negative(),
            real_of(b) < 0real ==> b.is_negative(),
            real_of(b) > 0real ==> !b.is_negative(),
    ;
    lemma_signed(x, s, unit() * size(x) + tiny(), negative);
}

/// The difference of finite doubles is the exact difference but for the rounding.
pub proof fn lemma_difference(a: Double, b: Double)
    requires
        a.finite(),
        b.finite(),
        size(real_of(a) - real_of(b)) <= limit(),
    ensures
        double::difference(a, b).finite(),
        within(
            real_of(double::difference(a, b)),
            real_of(a) - real_of(b),
            unit() * size(real_of(a) - real_of(b)),
        ),
{
    double::lemma_opposite_value(b);
    lemma_scales();
    let (v, p) = (b.value() as real, unit_count());
    assert((-v) / p == -(v / p)) by (nonlinear_arith)
        requires
            p > 0real,
    ;
    assert(real_of(b.opposite()) == -real_of(b));
    lemma_sum(a, b.opposite());
}

/// The root of a finite amount is not negative, and its square is that amount but for
/// the rounding.
pub proof fn lemma_root(a: Double)
    requires
        a.finite(),
        real_of(a) >= 0real,
    ensures
        double::root(a).finite(),
        real_of(double::root(a)) >= 0real,
        within(
            real_of(double::root(a)) * real_of(double::root(a)),
            real_of(a),
            2real * unit() * real_of(a),
        ),
{
    let r = double::root(a);
    double::lemma_root(a);
    lemma_scales();
    lemma_size(a);
    lemma_size(r);
    lemma_parts(a);
    let p = unit_count();
    let (x, s) = (real_of(a), real_of(r));
    let u = magnitude::units(a.magnitude());
    if a.magnitude() == 0 {
        assert(r == a);
        assert(x * x == 0real) by (nonlinear_arith)
            requires
                x == 0real,
        ;
    } else {
        assert(!(a.value() < 0)) by (nonlinear_arith)
            requires
                x * p == a.value() as real,
                x >= 0real,
                p > 0real,
        ;
        let n = u * power2::pow2(1074) as int;
        let m = r.magnitude();
        assert(magnitude::units(0) == 0) by (nonlinear_arith);
        magnitude::lemma_units_increase(0, a.magnitude());
        magnitude::lemma_units_increase(a.magnitude(), INFINITY as int);
        lemma_root_in_units(n, m, u);
        let v = magnitude::units(m);
        assert(s >= 0real && s * p == v as real) by {
            assert(size(s) * p == v as real);
        }
        let (y, q) = (n as real, v as real);
        assert(x * p * p == y) by (nonlinear_arith)
            requires
                x * p == u as real,
                p == power2::pow2(1074) as int as real,
                n == u * power2::pow2(1074) as int,
                y == n as real,
        ;
        assert(4503599627370496real * (q * q - y) <= 2real * y && 4503599627370496real
            * (y - q * q) <= 2real * y) by (nonlinear_arith)
            requires
                0x10_0000_0000_0000 * (v * v - n) <= 2 * n,
                0x10_0000_0000_0000 * (n - v * v) <= 2 * n,
                q == v as real,
                y == n as real,
        ;
        let s2 = s * s;
        assert(s2 * (p * p) == q * q) by (nonlinear_arith)
            requires
                s2 == s * s,
                s * p == q,
        ;
        assert(4503599627370496real * (s2 - x) <= 2real * x && 4503599627370496real
            * (x - s2) <= 2real * x) by (nonlinear_arith)
            requires
                s2 * (p * p) == q * q,
                x * p * p == y,
                4503599627370496real * (q * q - y) <= 2real * y,
                4503599627370496real * (y - q * q) <= 2real * y,
                p > 0real,
        ;
        assert(2real * unit() * x * 4503599627370496real == 2real * x)
            by (nonlinear_arith)
            requires
                unit() == 1real / 4503599627370496real,
        ;
    }
}

/// The square of a rounded root, in units.
proof fn lemma_root_in_units(n: int, m: int, u: int)
    requires
        u >= 1,
        u < magnitude::units(INFINITY as int),
        n == u * power2::pow2(1074) as int,
        magnitude::root_rounds_to(n, m),
    ensures
        m < INFINITY,
        0x10_0000_0000_0000 * (magnitude::units(m) * magnitude::units(m) - n) <= 2 * n,
        0x10_0000_0000_0000 * (n - magnitude::units(m) * magnitude::units(m)) <= 2 * n,
{
    let v = magnitude::units(m);
    let g = power2::pow2(magnitude::exponent(m)) as int;
    let l = LEADING as int;
    power2::lemma2_to64();
    power2::lemma_pow2_adds(64, 64);
    power2::lemma_pow2_strictly_increases(128, 1074);
    let q = power2::pow2(1074) as int;
    assert(n >= 340282366920938463463374607431768211456) by (nonlinear_arith)
        requires
            n == u * q,
            u >= 1,
            q > 340282366920938463463374607431768211456,
    ;
    magnitude::lemma_units_step(m);
    magnitude::lemma_units_nonnegative(m);
    if m < l {
        assert(g == 1);
        assert(m * 1 == m) by (nonlinear_arith);
        assert(v == m);
        if m < INFINITY {
            let above = v + (v + 1);
            assert(above * above < 4 * n) by (nonlinear_arith)
                requires
                    0 <= above <= 0x40_0000_0000_0000,
                    n >= 340282366920938463463374607431768211456,
            ;
            assert(false);
        }
    }
    assert(l * g <= v) by (nonlinear_arith)
        requires
            v == magnitude::significand(m) * g,
            l <= magnitude::significand(m),
            g >= 0,
    ;
    magnitude::lemma_units_step(m - 1);
    magnitude::lemma_exponent_increases(m - 1, m);
    let f = power2::pow2(magnitude::exponent(m - 1)) as int;
    if magnitude::exponent(m - 1) < magnitude::exponent(m) {
        power2::lemma_pow2_strictly_increases(magnitude::exponent(m - 1), magnitude::exponent(m));
    }
    let below = 2 * v - f;
    assert(below * below <= 4 * n);
    if m == INFINITY {
        lemma_root_fits(n, u, v, f);
        assert(false);
    }
    let above = 2 * v + g;
    assert(4 * n <= above * above);
    assert(0x10_0000_0000_0000 * (v * v - n) <= 2 * n && 0x10_0000_0000_0000 * (n - v * v) <= 2 * n)
        by {
        let low = 2 * v - g;
        assert(low * low <= below * below) by (nonlinear_arith)
            requires
                0 <= low <= below,
        ;
        let vv = v * v;
        let vg = v * g;
        let gg = g * g;
        assert(low * low == 4 * vv - 4 * vg + gg && above * above == 4 * vv + 4 * vg + gg)
            by (nonlinear_arith)
            requires
                low == 2 * v - g,
                above == 2 * v + g,
                vv == v * v,
                vg == v * g,
                gg == g * g,
        ;
        assert(0x10_0000_0000_0000 * vg <= vv) by (nonlinear_arith)
            requires
                l * g <= v,
                l == 0x10_0000_0000_0000,
                vg == v * g,
                vv == v * v,
                v >= 0,
        ;
        assert(0x10_0000_0000_0000 * gg <= vg) by (nonlinear_arith)
            requires
                l * g <= v,
                l == 0x10_0000_0000_0000,
                vg == v * g,
                gg == g * g,
                g >= 0,
        ;
    }
}

/// The root of a finite double is far from infinity.
proof fn lemma_root_fits(n: int, u: int, v: int, f: int)
    requires
        n == u * power2::pow2(1074) as int,
        0 < u < v,
        v == magnitude::units(INFINITY as int),
        f == power2::pow2(magnitude::exponent(INFINITY - 1)),
    ensures
        4 * n < (2 * v - f) * (2 * v - f),
{
    power2::lemma2_to64();
    power2::lemma2_to64_rest();
    power2::lemma_pow2_adds(52, 2046);
    assert(magnitude::exponent(INFINITY as int) == 2046);
    assert(magnitude::exponent(INFINITY - 1) == 2045);
    assert(magnitude::significand(INFINITY as int) == 0x10_0000_0000_0000);
    let q = power2::pow2(1074) as int;
    power2::lemma_pow2_strictly_increases(1074, 2045);
    power2::lemma_pow2_strictly_increases(2045, 2098);
    power2::lemma_pow2_strictly_increases(1074, 2098);
    power2::lemma_pow2_pos(1074);
    assert(v == power2::pow2(2098));
    assert(4 * n < v * (4 * q)) by (nonlinear_arith)
        requires
            n == u * q,
            u < v,
            q > 0,
    ;
    power2::lemma_pow2_adds(2, 1074);
    power2::lemma_pow2_strictly_increases(1076, 2098);
    assert(v * (4 * q) <= v * v) by (nonlinear_arith)
        requires
            4 * q <= v,
            v > 0,
    ;
    assert(v * v <= (2 * v - f) * (2 * v - f)) by (nonlinear_arith)
        requires
            0 < f < v,
    ;
}

/// The rounding error is small, and the least double much smaller.
pub proof fn lemma_units_are_small()
    ensures
        unit() > 0real,
        unit() * 4503599627370496real == 1real,
        tiny() > 0real,
        tiny() * 75557863725914323419136real <= unit(),
{
    lemma_scales();
    let (u, t) = (unit(), tiny());
    assert(u > 0real && u * 4503599627370496real == 1real) by (nonlinear_arith)
        requires
            u == 1real / 4503599627370496real,
    ;
    assert(t * 75557863725914323419136real <= u) by (nonlinear_arith)
        requires
            t * 340282366920938463463374607431768211456real <= 1real,
            u * 4503599627370496real == 1real,
            t > 0real,
    ;
}

/// The sum of two squares is the exact one but for the rounding.
pub proof fn lemma_square_sum(a: Double, b: Double)
    requires
        a.finite(),
        b.finite(),
        size(real_of(a)) <= 1152921504606846976real,
        size(real_of(b)) <= 1152921504606846976real,
    ensures
        ({
            let (x, y) = (real_of(a), real_of(b));
            let c = double::sum(double::product(a, a), double::product(b, b));
            &&& c.finite()
            &&& real_of(c) >= 0real
            &&& within(
                real_of(c),
                x * x + y * y,
                3real * unit() * (x * x + y * y) + 3real * tiny(),
            )
        }),
{
    lemma_scales();
    lemma_units_are_small();
    let (x, y, u, t) = (real_of(a), real_of(b), unit(), tiny());
    let (xx, yy) = (x * x, y * y);
    assert(0real <= xx <= 1329227995784915872903807060280344576real) by (nonlinear_arith)
        requires
            xx == x * x,
            -(1152921504606846976real) <= x <= 1152921504606846976real,
    ;
    assert(0real <= yy <= 1329227995784915872903807060280344576real) by (nonlinear_arith)
        requires
            yy == y * y,
            -(1152921504606846976real) <= y <= 1152921504606846976real,
    ;
    lemma_product(a, a);
    lemma_product(b, b);
    let (pa, pb) = (double::product(a, a), double::product(b, b));
    let (p, q) = (real_of(pa), real_of(pb));
    double::lemma_product(a, a);
    double::lemma_product(b, b);
    lemma_size(pa);
    lemma_size(pb);
    assert(p >= 0real && q >= 0real);
    let s = p + q;
    assert(s <= 5316911983139663491615228241121378304real) by (nonlinear_arith)
        requires
            s == p + q,
            p <= xx + (u * xx + t),
            q <= yy + (u * yy + t),
            xx <= 1329227995784915872903807060280344576real,
            yy <= 1329227995784915872903807060280344576real,
            0real <= xx,
            0real <= yy,
            0real < u <= 1real / 4real,
            t <= 1real,
    ;
    lemma_sum(pa, pb);
    let c = real_of(double::sum(pa, pb));
    assert(c >= 0real) by (nonlinear_arith)
        requires
            s - c <= u * s,
            s >= 0real,
            0real < u <= 1real,
    ;
    let e = 3real * u * (xx + yy) + 3real * t;
    assert(c - (xx + yy) <= e && (xx + yy) - c <= e) by (nonlinear_arith)
        requires
            c - s <= u * s,
            s - c <= u * s,
            s == p + q,
            p - xx <= u * xx + t,
            xx - p <= u * xx + t,
            q - yy <= u * yy + t,
            yy - q <= u * yy + t,
            xx >= 0real,
            yy >= 0real,
            0real < u <= 1real / 4real,
            t > 0real,
            e == 3real * u * (xx + yy) + 3real * t,
    ;
}

/// A quotient times the divisor.
pub proof fn lemma_ratio(a: real, b: real)
    requires
        b != 0real,
    ensures
        (a / b) * b == a,
{
    assert((a / b) * b == a) by (nonlinear_arith)
        requires
            b != 0real,
    ;
}

/// A double of a whole number is that number.
pub proof fn lemma_whole_real(d: Double, n: int)
    requires
        double::is_whole(d, n),
    ensures
        real_of(d) == n as real,
{
    lemma_scales();
    let (x, p, v) = (n as real, unit_count(), d.value() as real);
    assert(v == x * p) by (nonlinear_arith)
        requires
            v == (n * power2::pow2(1074)) as real,
            x == n as real,
            p == power2::pow2(1074) as int as real,
    ;
    assert(v / p == x) by (nonlinear_arith)
        requires
            v == x * p,
            p > 0real,
    ;
}

/// The doubles of 1, 2 and 4, and of a half.
pub proof fn lemma_constants()
    ensures
        double::is_whole(Double { bits: 0x3ff0_0000_0000_0000 }, 1),
        double::is_whole(Double { bits: 0x4000_0000_0000_0000 }, 2),
        double::is_whole(Double { bits: 0x4010_0000_0000_0000 }, 4),
        real_of(Double { bits: 0x3ff0_0000_0000_0000 }) == 1real,
        real_of(Double { bits: 0x4000_0000_0000_0000 }) == 2real,
        real_of(Double { bits: 0x4010_0000_0000_0000 }) == 4real,
        real_of(Double { bits: 0 }) == 0real,
        2 * magnitude::units(0x3fe0_0000_0000_0000) == power2::pow2(1074),
{
    power2::lemma2_to64();
    power2::lemma2_to64_rest();
    power2::lemma_pow2_adds(52, 1021);
    power2::lemma_pow2_adds(52, 1022);
    power2::lemma_pow2_adds(52, 1023);
    power2::lemma_pow2_adds(52, 1024);
    power2::lemma_pow2_unfold(1074);
    power2::lemma_pow2_unfold(1075);
    power2::lemma_pow2_unfold(1076);
    assert(magnitude::exponent(0x3fe0_0000_0000_0000) == 1021);
    assert(magnitude::significand(0x3fe0_0000_0000_0000) == 0x10_0000_0000_0000);
    assert(magnitude::exponent(0x3ff0_0000_0000_0000) == 1022);
    assert(magnitude::significand(0x3ff0_0000_0000_0000) == 0x10_0000_0000_0000);
    assert(magnitude::exponent(0x4000_0000_0000_0000) == 1023);
    assert(magnitude::significand(0x4000_0000_0000_0000) == 0x10_0000_0000_0000);
    assert(magnitude::exponent(0x4010_0000_0000_0000) == 1024);
    assert(magnitude::significand(0x4010_0000_0000_0000) == 0x10_0000_0000_0000);
    lemma_whole_real(Double { bits: 0x3ff0_0000_0000_0000 }, 1);
    lemma_whole_real(Double { bits: 0x4000_0000_0000_0000 }, 2);
    lemma_whole_real(Double { bits: 0x4010_0000_0000_0000 }, 4);
    lemma_size(Double { bits: 0 });
}

/// The order of doubles is that of the reals that they are.
pub proof fn lemma_order(a: Double, b: Double)
    ensures
        a.value() < b.value() <==> real_of(a) < real_of(b),
{
    lemma_parts(a);
    lemma_parts(b);
    lemma_scales();
    let (x, y, p) = (real_of(a), real_of(b), unit_count());
    assert(x < y <==> x * p < y * p) by (nonlinear_arith)
        requires
            p > 0real,
    ;
}

/// A double without its sign is the size of the real.
pub proof fn lemma_absolute(a: Double)
    requires
        !a.nan(),
    ensures
        real_of(double::absolute(a)) == size(real_of(a)),
        !double::absolute(a).nan(),
        a.finite() ==> double::absolute(a).finite(),
{
    let b = double::absolute(a);
    lemma_size(a);
    lemma_size(b);
    lemma_scales();
    assert(b.magnitude() == a.magnitude());
    let (x, y, p) = (size(real_of(a)), size(real_of(b)), unit_count());
    assert(x == y) by (nonlinear_arith)
        requires
            x * p == y * p,
            p > 0real,
    ;
}

} // verus!
