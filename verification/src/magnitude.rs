//! Magnitudes of IEEE 754 doubles: the 63 bits without the sign, and correct
//! rounding of sums, products, quotients and roots to them.
//!
//! Every finite double is a whole number of the smallest positive one
//! (2^-1074), so contracts speak of exact integers in that unit.
use vstd::arithmetic::power2;
use vstd::prelude::*;

verus! {

/// Magnitude bits of infinity; everything above is not a number.
pub const INFINITY: u64 = 0x7ff0_0000_0000_0000;

/// 2^52, the weight of the implicit leading significand bit.
pub const LEADING: u64 = 0x10_0000_0000_0000;

/// Significand of the double with magnitude bits `m`.
pub open spec fn significand(m: int) -> int {
    if m < LEADING {
        m
    } else {
        LEADING + m % (LEADING as int)
    }
}

/// Exponent of the double with magnitude bits `m`, counted from the smallest.
pub open spec fn exponent(m: int) -> nat {
    if m < LEADING {
        0
    } else {
        (m / (LEADING as int) - 1) as nat
    }
}

/// Absolute value of the double with magnitude bits `m`, in units of 2^-1074.
/// Infinity is counted as the power of two that would follow the largest
/// finite double.
pub open spec fn units(m: int) -> int {
    significand(m) * power2::pow2(exponent(m)) as int
}

/// Doubles with larger magnitude bits have larger absolute values.
pub proof fn lemma_units_increase(m: int, n: int)
    requires
        0 <= m < n,
    ensures
        units(m) < units(n),
    decreases n - m,
{
    lemma_units_step(n - 1);
    if m < n - 1 {
        lemma_units_increase(m, n - 1);
    }
}

/// The gap from a double to the next.
pub proof fn lemma_units_step(m: int)
    requires
        0 <= m,
    ensures
        units(m + 1) == units(m) + power2::pow2(exponent(m)),
        power2::pow2(exponent(m)) >= 1,
{
    let l = LEADING as int;
    power2::lemma_pow2_pos(exponent(m));
    let p = power2::pow2(exponent(m)) as int;
    if m + 1 < l {
        assert((m + 1) * p == m * p + p) by (nonlinear_arith);
    } else if m + 1 == l {
        power2::lemma_pow2_pos(0);
        assert((l + (m + 1) % l) * p == m * p + p) by (nonlinear_arith)
            requires
                m + 1 == l,
                (m + 1) % l == 0,
        ;
    } else {
        let (q, r) = (m / l, m % l);
        assert(m == q * l + r);
        if r + 1 < l {
            assert((m + 1) / l == q && (m + 1) % l == r + 1);
            assert((l + r + 1) * p == (l + r) * p + p) by (nonlinear_arith);
        } else {
            assert((m + 1) / l == q + 1 && (m + 1) % l == 0);
            power2::lemma_pow2_unfold(q as nat);
            assert(power2::pow2(q as nat) == 2 * p);
            assert((l + 0) * (2 * p) == (l + r) * p + p) by (nonlinear_arith)
                requires
                    r + 1 == l,
            ;
        }
    }
}

/// The exact absolute value `num / den` rounds to the double with magnitude
/// bits `m`: it lies between the midpoints to both neighbours of that double,
/// and a tie goes to the even one.
pub open spec fn ratio_rounds_to(num: int, den: int, m: int) -> bool {
    &&& 0 <= m <= INFINITY
    &&& m > 0 ==> (2 * num > (units(m - 1) + units(m)) * den || (2 * num == (units(m - 1) + units(
        m,
    )) * den && m % 2 == 0))
    &&& m < INFINITY ==> (2 * num < (units(m) + units(m + 1)) * den || (2 * num == (units(m)
        + units(m + 1)) * den && m % 2 == 0))
}

/// The exact absolute value `exact` rounds to the double with magnitude bits
/// `m`.
pub open spec fn rounds_to(exact: int, m: int) -> bool {
    ratio_rounds_to(exact, 1, m)
}

/// Magnitude bits put together from exponent and significand.
pub proof fn lemma_units_of(e: int, q: int)
    requires
        0 <= e,
        LEADING <= q < 2 * LEADING || (e == 0 && 0 <= q < 2 * LEADING),
    ensures
        units(e * LEADING + q) == q * power2::pow2(e as nat),
        exponent(e * LEADING + q) == e,
{
    let l = LEADING as int;
    let m = e * l + q;
    if q >= l {
        assert(m == (e + 1) * l + (q - l)) by (nonlinear_arith)
            requires
                m == e * l + q,
        ;
        vstd::arithmetic::div_mod::lemma_fundamental_div_mod_converse(m, l, e + 1, q - l);
        assert(m >= l) by (nonlinear_arith)
            requires
                m == e * l + q,
                q >= l,
                e >= 0,
                l > 0,
        ;
    } else {
        assert(m == q) by (nonlinear_arith)
            requires
                m == e * l + q,
                e == 0,
        ;
    }
}

/// The gap below a double is at least half the gap above it.
pub proof fn lemma_units_step_below(m: int)
    requires
        0 < m,
    ensures
        units(m) <= units(m - 1) + power2::pow2(exponent(m)),
        2 * units(m) >= 2 * units(m - 1) + power2::pow2(exponent(m)),
{
    let l = LEADING as int;
    lemma_units_step(m - 1);
    power2::lemma_pow2_pos(exponent(m));
    if m > l && m % l == 0 {
        assert((m - 1) / l == m / l - 1);
        power2::lemma_pow2_unfold(exponent(m));
    } else if m > l {
        assert((m - 1) / l == m / l);
    }
}

/// A value within a quarter of the gap above a double rounds to it.
pub proof fn lemma_rounds_to_near(exact: int, m: int)
    requires
        0 < m < INFINITY,
        4 * exact < 4 * units(m) + power2::pow2(exponent(m)),
        4 * exact > 4 * units(m) - power2::pow2(exponent(m)),
    ensures
        rounds_to(exact, m),
{
    lemma_units_step(m);
    lemma_units_step_below(m);
}

/// Significand and exponent of finite magnitude bits.
fn split(m: u64) -> (parts: (u64, u64))
    requires
        m < INFINITY,
    ensures
        parts.0 == significand(m as int),
        parts.1 == exponent(m as int),
        parts.0 < 2 * LEADING,
        parts.1 > 0 ==> parts.0 >= LEADING,
        parts.1 <= 2045,
{
    if m < LEADING {
        (m, 0)
    } else {
        (LEADING + m % LEADING, m / LEADING - 1)
    }
}

/// `mx` times 2^`d`.
fn scaled(mx: u64, d: u64) -> (s: u128)
    requires
        mx < 2 * LEADING,
        d <= 64,
    ensures
        s == mx * power2::pow2(d as nat),
        s < 0x20_0000_0000_0000_0000_0000_0000_0000,
{
    proof {
        power2::lemma2_to64();
        power2::lemma2_to64_rest();
        if d < 64 {
            power2::lemma_pow2_strictly_increases(d as nat, 64);
            vstd::bits::lemma_u64_shl_is_mul(1, d);
        }
        power2::lemma_pow2_pos(d as nat);
    }
    let p: u128 = if d < 64 {
        (1u64 << d) as u128
    } else {
        0x1_0000_0000_0000_0000
    };
    proof {
        assert(p == power2::pow2(d as nat));
        assert(mx * p < 0x20_0000_0000_0000 * 0x1_0000_0000_0000_0000) by (nonlinear_arith)
            requires
                mx < 0x20_0000_0000_0000,
                0 < p <= 0x1_0000_0000_0000_0000,
        ;
    }
    mx as u128 * p
}

/// Where `n` lies between `kept` and `kept + 1` times `p d`, given that it lies
/// between `s` and `s + 1` times `d` and `s` is `kept` times the even `p` and
/// a rest.
pub proof fn lemma_dropped_bits(
    n: int,
    d: int,
    s: int,
    sticky: bool,
    p: int,
    kept: int,
    rest: int,
)
    requires
        d > 0,
        p >= 2,
        p % 2 == 0,
        s == kept * p + rest,
        0 <= rest < p,
        s * d <= n < (s + 1) * d,
        sticky == (n != s * d),
    ensures
        kept * (p * d) <= n < (kept + 1) * (p * d),
        2 * n < (2 * kept + 1) * (p * d) <==> 2 * rest < p,
        2 * n == (2 * kept + 1) * (p * d) <==> 2 * rest == p && !sticky,
{
    let pd = p * d;
    assert(s * d == kept * pd + rest * d) by (nonlinear_arith)
        requires
            s == kept * p + rest,
            pd == p * d,
    ;
    assert((s + 1) * d == s * d + d) by (nonlinear_arith);
    assert(rest * d + d <= pd) by (nonlinear_arith)
        requires
            rest + 1 <= p,
            d > 0,
            pd == p * d,
    ;
    assert(rest * d >= 0) by (nonlinear_arith)
        requires
            rest >= 0,
            d > 0,
    ;
    assert((kept + 1) * pd == kept * pd + pd) by (nonlinear_arith);
    assert((2 * kept + 1) * pd == 2 * (kept * pd) + pd) by (nonlinear_arith);
    if 2 * rest < p {
        assert(2 * (rest * d) + 2 * d <= pd) by (nonlinear_arith)
            requires
                2 * rest + 2 <= p,
                d > 0,
                pd == p * d,
        ;
    } else if 2 * rest == p {
        assert(2 * (rest * d) == pd) by (nonlinear_arith)
            requires
                2 * rest == p,
                pd == p * d,
        ;
    } else {
        assert(2 * (rest * d) >= pd + d) by (nonlinear_arith)
            requires
                2 * rest >= p + 1,
                d > 0,
                pd == p * d,
        ;
    }
}

/// Rounding between two neighbouring doubles.
pub proof fn lemma_rounds_between(num: int, den: int, m: int, up: bool)
    requires
        den > 0,
        0 <= m < INFINITY,
        units(m) * den <= num < units(m + 1) * den,
        up ==> 2 * num > (units(m) + units(m + 1)) * den || (2 * num == (units(m) + units(m + 1))
            * den && m % 2 == 1),
        !up ==> 2 * num < (units(m) + units(m + 1)) * den || (2 * num == (units(m) + units(m + 1))
            * den && m % 2 == 0),
    ensures
        ratio_rounds_to(num, den, m + (if up {
            1int
        } else {
            0int
        })),
{
    if up {
        lemma_units_step(m + 1);
        assert((units(m + 1) + units(m + 2)) * den > 2 * (units(m + 1) * den)) by (nonlinear_arith)
            requires
                units(m + 2) > units(m + 1),
                den > 0,
        ;
    } else if m > 0 {
        lemma_units_step(m - 1);
        assert((units(m - 1) + units(m)) * den < 2 * (units(m) * den)) by (nonlinear_arith)
            requires
                units(m - 1) < units(m),
                den > 0,
        ;
    }
}

/// What is no less than infinity's units rounds to infinity.
pub proof fn lemma_ratio_overflows(num: int, den: int, m: int)
    requires
        den > 0,
        m >= INFINITY,
        num >= units(m) * den,
    ensures
        ratio_rounds_to(num, den, INFINITY as int),
{
    let i = INFINITY as int;
    if m > i {
        lemma_units_increase(i, m);
    }
    lemma_units_step(i - 1);
    assert(2 * num > (units(i - 1) + units(i)) * den) by (nonlinear_arith)
        requires
            num >= units(m) * den,
            units(m) >= units(i),
            units(i) > units(i - 1),
            den > 0,
    ;
}

pub open spec fn nonneg_part(e: int) -> nat {
    if e < 0 {
        0
    } else {
        e as nat
    }
}

/// `num / den` lies at or above `s` times 2^`e` and below `s + 1` times it;
/// above, when `sticky`.
pub open spec fn is_truncated(num: int, den: int, s: int, sticky: bool, e: int) -> bool {
    let a = power2::pow2(nonneg_part(e)) as int;
    let b = power2::pow2(nonneg_part(-e)) as int;
    &&& s * (a * den) <= num * b < (s + 1) * (a * den)
    &&& sticky == (num * b != s * (a * den))
}

/// Round a truncated ratio to magnitude bits. At least one bit is dropped.
fn round_truncated(
    s: u128,
    sticky: bool,
    e: i64,
    Ghost(num): Ghost<int>,
    Ghost(den): Ghost<int>,
) -> (m: u64)
    requires
        s < 0x40_0000_0000_0000_0000_0000_0000_0000,
        -120 <= e <= 2200,
        e < 0 || s >= 2 * LEADING,
        den > 0,
        is_truncated(num, den, s as int, sticky, e as int),
    ensures
        ratio_rounds_to(num, den, m as int),
{
    let ghost a = power2::pow2(nonneg_part(e as int)) as int;
    let ghost b = power2::pow2(nonneg_part(-(e as int))) as int;
    // `p` is 2^`k`, the weight of the last kept bit.
    let mut p: u128 = 1;
    let mut k: i64 = 0;
    proof {
        power2::lemma2_to64();
        power2::lemma_pow2_pos(nonneg_part(e as int));
        power2::lemma_pow2_pos(nonneg_part(-(e as int)));
    }
    // `t` is 2^53 times `p`, as long as `s` can reach it.
    let mut t: u128 = 2 * (LEADING as u128);
    while (k <= 104 && k + 16 + e <= 0) || (k <= 50 && s / 0x1_0000 >= t)
        invariant
            s < 0x40_0000_0000_0000_0000_0000_0000_0000,
            -120 <= e <= 2200,
            0 <= k <= 120,
            p == power2::pow2(k as nat),
            1 <= p <= 0x100_0000_0000_0000_0000_0000_0000_0000,
            k <= 66 ==> t == 0x20_0000_0000_0000 * p,
            k > 0 && k + e > 0 ==> s >= 0x10_0000_0000_0000 * p,
            k > 0 ==> p % 2 == 0,
        decreases 200 - k,
    {
        proof {
            power2::lemma2_to64();
            power2::lemma_pow2_adds(k as nat, 16);
            lemma_pow2_bound((k + 16) as nat);
            if k <= 50 {
                power2::lemma2_to64_rest();
                lemma_pow2_at_most(k as nat, 50);
            }
        }
        p = p * 0x1_0000;
        if k <= 50 {
            t = t * 0x1_0000;
        }
        k = k + 16;
    }
    while k + e < 0 || (k <= 66 && s >= t)
        invariant
            s < 0x40_0000_0000_0000_0000_0000_0000_0000,
            -120 <= e <= 2200,
            0 <= k <= 120,
            p == power2::pow2(k as nat),
            1 <= p <= 0x100_0000_0000_0000_0000_0000_0000_0000,
            k <= 66 ==> t == 0x20_0000_0000_0000 * p,
            k > 0 && k + e > 0 ==> s >= 0x10_0000_0000_0000 * p,
            k > 0 ==> p % 2 == 0,
        decreases 200 - k,
    {
        proof {
            power2::lemma_pow2_unfold((k + 1) as nat);
            lemma_pow2_bound((k + 1) as nat);
            if k <= 66 {
                power2::lemma2_to64();
                power2::lemma2_to64_rest();
                power2::lemma_pow2_adds(60, 6);
                lemma_pow2_at_most(k as nat, 66);
            }
        }
        p = p * 2;
        if k < 66 {
            t = t * 2;
        }
        k = k + 1;
    }
    proof {
        if k > 66 {
            power2::lemma2_to64();
            power2::lemma2_to64_rest();
            power2::lemma_pow2_adds(60, 6);
            lemma_pow2_at_most(66, k as nat);
        }
        assert(s < 0x20_0000_0000_0000 * p);
        assert((s as int / (p as int)) < 0x20_0000_0000_0000) by (nonlinear_arith)
            requires
                0 <= s < 0x20_0000_0000_0000 * p,
                p > 0,
        ;
        vstd::bits::lemma_u128_shr_is_div(s, k as u128);
    }
    let kept: u128 = s >> (k as u128);
    proof {
        vstd::arithmetic::div_mod::lemma_fundamental_div_mod(s as int, p as int);
        assert(kept == s / p);
        assert(kept * p == p * (s as int / p as int)) by (nonlinear_arith)
            requires
                kept == s as int / p as int,
        ;
    }
    let rest: u128 = s - kept * p;
    let big: i64 = e + k;
    let m: u64 = big as u64 * LEADING + kept as u64;
    let up: bool = if 2 * rest > p {
        true
    } else {
        2 * rest == p && (sticky || kept % 2 == 1)
    };
    proof {
        vstd::arithmetic::div_mod::lemma_fundamental_div_mod(s as int, p as int);
        if k == 0 {
            assert(s / p == s) by (nonlinear_arith)
                requires
                    p == 1,
            ;
        }
        assert(kept * p == p * kept) by (nonlinear_arith);
        let d = a * den;
        let n = num * b;
        assert(d > 0) by (nonlinear_arith)
            requires
                d == a * den,
                a > 0,
                den > 0,
        ;
        lemma_dropped_bits(n, d, s as int, sticky, p as int, kept as int, rest as int);
        if big > 0 {
            assert(kept >= 0x10_0000_0000_0000) by (nonlinear_arith)
                requires
                    s as int == p * kept + rest,
                    rest < p,
                    s >= 0x10_0000_0000_0000 * p,
            ;
        }
        lemma_units_of(big as int, kept as int);
        lemma_units_step(m as int);
        let u = power2::pow2(big as nat) as int;
        power2::lemma_pow2_pos(big as nat);
        // a p == b u
        if e >= 0 {
            power2::lemma_pow2_adds(e as nat, k as nat);
        } else {
            power2::lemma_pow2_adds((-e) as nat, big as nat);
        }
        assert(a * p == b * u) by (nonlinear_arith)
            requires
                (b == 1 && u == a * p) || (a == 1 && p == b * u),
        ;
        let pd = p * d;
        assert(pd == b * (u * den)) by (nonlinear_arith)
            requires
                pd == p * d,
                d == a * den,
                a * p == b * u,
        ;
        let ud = u * den;
        assert(kept * pd == b * (kept * ud) && (kept + 1) * pd == b * ((kept + 1) * ud) && (2 * kept
            + 1) * pd == b * ((2 * kept + 1) * ud)) by (nonlinear_arith)
            requires
                pd == b * ud,
        ;
        lemma_cancel(b, kept * ud, num);
        lemma_cancel(b, num, (kept + 1) * ud);
        lemma_cancel(b, 2 * num, (2 * kept + 1) * ud);
        assert(b * (2 * num) == 2 * (num * b) && b * num == num * b) by (nonlinear_arith);
        assert(units(m as int) * den == kept * ud && units(m + 1) * den == (kept + 1) * ud && (
        units(m as int) + units(m + 1)) * den == (2 * kept + 1) * ud) by (nonlinear_arith)
            requires
                units(m as int) == kept * u,
                units(m + 1) == units(m as int) + u,
                ud == u * den,
        ;
        assert(m as int % 2 == kept as int % 2) by {
            assert(big * LEADING == 2 * (big * 0x8_0000_0000_0000));
        }
    }
    if m >= INFINITY {
        proof {
            lemma_ratio_overflows(num, den, m as int);
        }
        return INFINITY;
    }
    proof {
        lemma_rounds_between(num, den, m as int, up);
    }
    if up {
        m + 1
    } else {
        m
    }
}

/// Order survives cancelling a positive factor.
pub proof fn lemma_cancel(b: int, x: int, y: int)
    requires
        b > 0,
    ensures
        b * x <= b * y <==> x <= y,
        b * x < b * y <==> x < y,
        b * x == b * y <==> x == y,
{
    assert((b * x <= b * y <==> x <= y) && (b * x < b * y <==> x < y) && (b * x == b * y <==> x
        == y)) by (nonlinear_arith)
        requires
            b > 0,
    ;
}

/// Powers of two grow.
proof fn lemma_pow2_at_most(j: nat, k: nat)
    requires
        j <= k,
    ensures
        power2::pow2(j) <= power2::pow2(k),
{
    if j < k {
        power2::lemma_pow2_strictly_increases(j, k);
    }
}

pub proof fn lemma_pow2_bound(k: nat)
    requires
        k <= 120,
    ensures
        power2::pow2(k) <= 0x100_0000_0000_0000_0000_0000_0000_0000,
{
    power2::lemma2_to64();
    power2::lemma2_to64_rest();
    power2::lemma_pow2_adds(60, 60);
    if k < 120 {
        power2::lemma_pow2_strictly_increases(k, 120);
    }
}

/// Round an exact value `s` times 2^`e` to magnitude bits.
fn round_exact(s: u128, e: i64, Ghost(num): Ghost<int>, Ghost(den): Ghost<int>) -> (m: u64)
    requires
        s < 0x40_0000_0000_0000_0000_0000_0000_0000,
        -4000 <= e <= 4000,
        den > 0,
        is_truncated(num, den, s as int, false, e as int),
    ensures
        ratio_rounds_to(num, den, m as int),
{
    if s == 0 {
        proof {
            lemma_zero_rounds_to_zero(num, den, e as int);
        }
        return 0;
    }
    let mut q: u128 = s;
    let mut x: i64 = e;
    while q < 2 * (LEADING as u128) && x >= 0
        invariant
            0 < q < 0x40_0000_0000_0000_0000_0000_0000_0000,
            -4000 <= x <= 4000,
            den > 0,
            is_truncated(num, den, q as int, false, x as int),
        decreases x + 1,
    {
        proof {
            lemma_truncated_doubles(num, den, q as int, x as int);
        }
        q = q * 2;
        x = x - 1;
    }
    round_any(q, false, x, Ghost(num), Ghost(den))
}

/// Round a truncated ratio to magnitude bits, whatever its exponent.
fn round_any(
    s: u128,
    sticky: bool,
    e: i64,
    Ghost(num): Ghost<int>,
    Ghost(den): Ghost<int>,
) -> (m: u64)
    requires
        s < 0x40_0000_0000_0000_0000_0000_0000_0000,
        -4000 <= e <= 4000,
        e < 0 || s >= 2 * LEADING,
        den > 0,
        is_truncated(num, den, s as int, sticky, e as int),
    ensures
        ratio_rounds_to(num, den, m as int),
{
    if e < -120 {
        proof {
            lemma_tiny_rounds_to_zero(num, den, s as int, sticky, e as int);
        }
        return 0;
    }
    if e > 2200 {
        proof {
            lemma_huge_rounds_to_infinity(num, den, s as int, sticky, e as int);
        }
        return INFINITY;
    }
    round_truncated(s, sticky, e, Ghost(num), Ghost(den))
}

pub proof fn lemma_zero_rounds_to_zero(num: int, den: int, e: int)
    requires
        den > 0,
        is_truncated(num, den, 0, false, e),
    ensures
        num == 0,
        ratio_rounds_to(num, den, 0),
{
    let a = power2::pow2(nonneg_part(e)) as int;
    let b = power2::pow2(nonneg_part(-e)) as int;
    power2::lemma_pow2_pos(nonneg_part(-e));
    assert(0 * (a * den) == 0) by (nonlinear_arith);
    lemma_cancel(b, num, 0);
    assert(b * num == num * b && b * 0 == 0) by (nonlinear_arith);
    lemma_units_step(0);
    assert(units(0) == 0) by (nonlinear_arith);
    assert((units(0) + units(1)) * den > 0) by (nonlinear_arith)
        requires
            units(0) + units(1) > 0,
            den > 0,
    ;
}

/// An exact value can be written with one more bit.
pub proof fn lemma_truncated_doubles(num: int, den: int, s: int, e: int)
    requires
        e >= 0,
        is_truncated(num, den, s, false, e),
    ensures
        is_truncated(num, den, 2 * s, false, e - 1),
{
    let a = power2::pow2(nonneg_part(e)) as int;
    let a2 = power2::pow2(nonneg_part(e - 1)) as int;
    let b2 = power2::pow2(nonneg_part(-(e - 1))) as int;
    power2::lemma2_to64();
    power2::lemma_pow2_pos(nonneg_part(e - 1));
    if e >= 1 {
        power2::lemma_pow2_unfold(e as nat);
        assert(num == s * (a * den)) by {
            assert(num * 1 == num);
        }
        assert(2 * s * (a2 * den) == num) by (nonlinear_arith)
            requires
                num == s * (a * den),
                a == 2 * a2,
        ;
        assert(num * b2 == num) by (nonlinear_arith)
            requires
                b2 == 1,
        ;
    } else {
        assert(num == s * (a * den)) by {
            assert(num * 1 == num);
        }
        assert(2 * s * (a2 * den) == num * b2) by (nonlinear_arith)
            requires
                num == s * (a * den),
                a == 1,
                a2 == 1,
                b2 == 2,
        ;
    }
    assert((2 * s + 1) * (a2 * den) == 2 * s * (a2 * den) + a2 * den) by (nonlinear_arith);
    let d = a * den;
    assert((s + 1) * d == s * d + d) by (nonlinear_arith);
    assert(d > 0);
    assert(a2 * den > 0) by (nonlinear_arith)
        requires
            a * den > 0,
            a > 0,
            a2 > 0,
    ;
}

pub proof fn lemma_tiny_rounds_to_zero(num: int, den: int, s: int, sticky: bool, e: int)
    requires
        0 <= s < 0x40_0000_0000_0000_0000_0000_0000_0000,
        e < -120,
        den > 0,
        is_truncated(num, den, s, sticky, e),
    ensures
        ratio_rounds_to(num, den, 0),
{
    let b = power2::pow2((-e) as nat) as int;
    power2::lemma2_to64();
    power2::lemma2_to64_rest();
    power2::lemma_pow2_adds(60, 60);
    power2::lemma_pow2_strictly_increases(120, (-e) as nat);
    lemma_units_step(0);
    assert(units(0) == 0) by (nonlinear_arith);
    assert((s + 1) * (1 * den)
        <= 0x40_0000_0000_0000_0000_0000_0000_0000 * den) by (nonlinear_arith)
        requires
            0 <= s < 0x40_0000_0000_0000_0000_0000_0000_0000,
            den > 0,
    ;
    assert(2 * num < den) by (nonlinear_arith)
        requires
            num * b < 0x40_0000_0000_0000_0000_0000_0000_0000 * den,
            b > 0x100_0000_0000_0000_0000_0000_0000_0000,
            den > 0,
    ;
    assert((units(0) + units(1)) * den == den) by (nonlinear_arith)
        requires
            units(0) == 0,
            units(1) == 1,
    ;
}

pub proof fn lemma_huge_rounds_to_infinity(num: int, den: int, s: int, sticky: bool, e: int)
    requires
        2 * LEADING <= s,
        e > 2200,
        den > 0,
        is_truncated(num, den, s, sticky, e),
    ensures
        ratio_rounds_to(num, den, INFINITY as int),
{
    let a = power2::pow2(e as nat) as int;
    let i = INFINITY as int;
    power2::lemma2_to64();
    assert(exponent(i) == 2046 && significand(i) == LEADING);
    power2::lemma_pow2_strictly_increases(2046, e as nat);
    power2::lemma_pow2_pos(2046);
    assert(s * a >= units(i)) by (nonlinear_arith)
        requires
            units(i) == 0x10_0000_0000_0000 * power2::pow2(2046) as int,
            s >= 0x10_0000_0000_0000,
            a >= power2::pow2(2046) as int,
            power2::pow2(2046) as int > 0,
    ;
    assert(num >= units(i) * den) by (nonlinear_arith)
        requires
            num * 1 >= s * (a * den),
            s * a >= units(i),
            den > 0,
    ;
    lemma_ratio_overflows(num, den, i);
}

/// Magnitude bits of `units(x) + units(y)`, or of the difference, rounded.
/// Zero when the difference is zero.
pub(crate) fn combine(x: u64, y: u64, subtract: bool) -> (m: u64)
    requires
        y <= x < INFINITY,
    ensures
        subtract && x == y ==> m == 0,
        subtract && x != y ==> rounds_to(units(x as int) - units(y as int), m as int),
        !subtract && x > 0 ==> rounds_to(units(x as int) + units(y as int), m as int),
        !subtract && x == 0 ==> m == 0,
{
    if x == y && subtract {
        return 0;
    }
    if x == 0 {
        return 0;
    }
    let (mx, ex) = split(x);
    let (my, ey) = split(y);
    let ghost ux = units(x as int);
    let ghost uy = units(y as int);
    proof {
        lemma_exponent_increases(y as int, x as int);
        power2::lemma_pow2_pos(ey as nat);
        power2::lemma_pow2_pos(ex as nat);
        if y < x {
            lemma_units_increase(y as int, x as int);
        }
        assert(0 <= uy) by (nonlinear_arith)
            requires
                uy == my * power2::pow2(ey as nat),
                my >= 0,
                power2::pow2(ey as nat) > 0,
        ;
        if x > 0 {
            lemma_units_increase(0, x as int);
            assert(units(0) == 0) by (nonlinear_arith);
        }
    }
    let d: u64 = ex - ey;
    if d > 64 {
        // The smaller operand is far below the last place of the larger one.
        proof {
            let u = power2::pow2(ey as nat) as int;
            let big_u = power2::pow2(ex as nat) as int;
            power2::lemma_pow2_adds(ey as nat, d as nat);
            power2::lemma_pow2_strictly_increases(64, d as nat);
            power2::lemma2_to64();
            power2::lemma2_to64_rest();
            assert(4 * uy < big_u) by (nonlinear_arith)
                requires
                    uy == my * u,
                    0 <= my < 0x20_0000_0000_0000,
                    big_u == u * power2::pow2(d as nat),
                    power2::pow2(d as nat) > 0x1_0000_0000_0000_0000,
                    u > 0,
            ;
            lemma_rounds_to_near(ux + uy, x as int);
            lemma_rounds_to_near(ux - uy, x as int);
        }
        return x;
    }
    let wide: u128 = scaled(mx, d);
    proof {
        let u = power2::pow2(ey as nat) as int;
        power2::lemma_pow2_adds(ey as nat, d as nat);
        assert(ux == wide * u) by (nonlinear_arith)
            requires
                ux == mx * power2::pow2(ex as nat),
                power2::pow2(ex as nat) == u * power2::pow2(d as nat),
                wide == mx * power2::pow2(d as nat),
        ;
        assert(uy == my * u);
        assert((wide + my) * u == ux + uy && (wide - my) * u == ux - uy) by (nonlinear_arith)
            requires
                ux == wide * u,
                uy == my * u,
        ;
        if y < x {
            assert(wide > my) by (nonlinear_arith)
                requires
                    wide * u > my * u,
                    u > 0,
            ;
        }
        assert(ux > 0);
        assert(wide > 0) by (nonlinear_arith)
            requires
                wide * u > 0,
                u > 0,
        ;
    }
    let s: u128 = if subtract {
        wide - my as u128
    } else {
        wide + my as u128
    };
    let ghost exact = s * power2::pow2(ey as nat);
    proof {
        let u = power2::pow2(ey as nat) as int;
        power2::lemma2_to64();
        assert(exact * 1 == exact && s * (u * 1) == exact
            && (s + 1) * (u * 1) == exact + u) by (nonlinear_arith)
            requires
                exact == s * u,
        ;
    }
    round_exact(s, ey as i64, Ghost(exact), Ghost(1))
}

/// Exponents grow with the magnitude bits.
pub proof fn lemma_exponent_increases(m: int, n: int)
    requires
        0 <= m <= n,
    ensures
        exponent(m) <= exponent(n),
{
    let l = LEADING as int;
    if m >= l {
        vstd::arithmetic::div_mod::lemma_div_is_ordered(m, n, l);
    }
}

/// A ratio of powers of two with `t` on top is truncated at `s` when `t / my`
/// is.
pub proof fn lemma_truncated_powers(
    num: int,
    den: int,
    t: int,
    my: int,
    s: int,
    x: nat,
    y: nat,
)
    requires
        my > 0,
        num == t * power2::pow2(x),
        den == my * power2::pow2(y),
        s * my <= t < (s + 1) * my,
    ensures
        is_truncated(num, den, s, t != s * my, x - y),
        den > 0,
{
    let e = x - y;
    let a = power2::pow2(nonneg_part(e)) as int;
    let b = power2::pow2(nonneg_part(-e)) as int;
    let (px, py) = (power2::pow2(x) as int, power2::pow2(y) as int);
    power2::lemma2_to64();
    power2::lemma_pow2_pos(x);
    power2::lemma_pow2_pos(y);
    power2::lemma_pow2_pos(nonneg_part(e));
    power2::lemma_pow2_pos(nonneg_part(-e));
    if e >= 0 {
        power2::lemma_pow2_adds(y, e as nat);
    } else {
        power2::lemma_pow2_adds(x, (-e) as nat);
    }
    assert(px * b == py * a) by (nonlinear_arith)
        requires
            (b == 1 && px == py * a) || (a == 1 && py == px * b),
    ;
    let c = py * a;
    assert(num * b == t * c) by (nonlinear_arith)
        requires
            num == t * px,
            px * b == c,
    ;
    assert(s * (a * den) == (s * my) * c
        && (s + 1) * (a * den) == ((s + 1) * my) * c) by (nonlinear_arith)
        requires
            den == my * py,
            c == py * a,
    ;
    assert(c > 0) by (nonlinear_arith)
        requires
            c == py * a,
            py > 0,
            a > 0,
    ;
    assert(den > 0) by (nonlinear_arith)
        requires
            den == my * py,
            py > 0,
            my > 0,
    ;
    lemma_cancel(c, s * my, t);
    lemma_cancel(c, t, (s + 1) * my);
    assert(c * (s * my) == (s * my) * c && c * t == t * c
        && c * ((s + 1) * my) == ((s + 1) * my) * c) by (nonlinear_arith);
}

/// Magnitude bits of a product.
pub(crate) fn multiply(x: u64, y: u64) -> (m: u64)
    requires
        x < INFINITY,
        y < INFINITY,
    ensures
        ratio_rounds_to(units(x as int) * units(y as int), power2::pow2(1074) as int, m as int),
{
    let (mx, ex) = split(x);
    let (my, ey) = split(y);
    proof {
        assert(0 <= mx * my <= 0x20_0000_0000_0000 * 0x20_0000_0000_0000) by (nonlinear_arith)
            requires
                0 <= mx < 0x20_0000_0000_0000,
                0 <= my < 0x20_0000_0000_0000,
        ;
    }
    let s: u128 = mx as u128 * my as u128;
    let ghost num = units(x as int) * units(y as int);
    let ghost den = power2::pow2(1074) as int;
    proof {
        power2::lemma_pow2_adds(ex as nat, ey as nat);
        assert(num == s * power2::pow2((ex + ey) as nat)) by (nonlinear_arith)
            requires
                num == (mx * power2::pow2(ex as nat)) * (my * power2::pow2(ey as nat)),
                power2::pow2((ex + ey) as nat) == power2::pow2(ex as nat) * power2::pow2(ey as nat),
                s == mx * my,
        ;
        assert(den == 1 * power2::pow2(1074));
        lemma_truncated_powers(num, den, s as int, 1, s as int, (ex + ey) as nat, 1074);
    }
    round_exact(s, ex as i64 + ey as i64 - 1074, Ghost(num), Ghost(den))
}

/// Magnitude bits of the double nearest a whole number.
pub(crate) fn nearest_bits(n: u64) -> (m: u64)
    ensures
        rounds_to(n * power2::pow2(1074), m as int),
{
    let ghost num = n * power2::pow2(1074);
    proof {
        power2::lemma2_to64();
        power2::lemma_pow2_pos(1074);
        let a = power2::pow2(1074) as int;
        let s = n as int;
        assert(s * (a * 1) == num * 1 && num * 1 < (s + 1) * (a * 1)) by (nonlinear_arith)
            requires
                num == s * a,
                a > 0,
        ;
        assert(is_truncated(num, 1, s, false, 1074));
    }
    round_exact(n as u128, 1074, Ghost(num), Ghost(1))
}

/// Magnitude bits of a quotient.
pub(crate) fn divide(x: u64, y: u64) -> (m: u64)
    requires
        x < INFINITY,
        0 < y < INFINITY,
    ensures
        ratio_rounds_to(units(x as int) * power2::pow2(1074) as int, units(y as int), m as int),
{
    let ghost num = units(x as int) * power2::pow2(1074) as int;
    let ghost den = units(y as int);
    let (mx, ex) = split(x);
    let (my, ey) = split(y);
    proof {
        lemma_units_increase(0, y as int);
        assert(units(0) == 0) by (nonlinear_arith);
    }
    if x == 0 {
        proof {
            assert(num == 0) by (nonlinear_arith)
                requires
                    num == units(x as int) * power2::pow2(1074) as int,
                    units(x as int) == 0,
            ;
            power2::lemma2_to64();
            assert(0 * (1 * den) == 0 && (0 + 1) * (1 * den) == den) by (nonlinear_arith);
            assert(num * 1 == 0);
            lemma_zero_rounds_to_zero(num, den, 0);
        }
        return 0;
    }
    let mut t: u64 = mx;
    let mut e: u64 = ex + 1074;
    proof {
        power2::lemma_pow2_adds(ex as nat, 1074);
        assert(num == t * power2::pow2(e as nat)) by (nonlinear_arith)
            requires
                num == (mx * power2::pow2(ex as nat)) * power2::pow2(1074) as int,
                power2::pow2(e as nat) == power2::pow2(ex as nat) * power2::pow2(1074),
                t == mx,
        ;
        assert(mx > 0);
    }
    let ghost mut doublings: nat = 0;
    proof {
        power2::lemma2_to64();
    }
    while t < LEADING
        invariant
            0 < t < 2 * LEADING,
            t >= power2::pow2(doublings),
            doublings <= 52,
            e == ex + 1074 - doublings,
            ex <= 2045,
            num == t * power2::pow2(e as nat),
        decreases 52 - doublings,
    {
        proof {
            power2::lemma2_to64_rest();
            power2::lemma_pow2_unfold(doublings + 1);
            doublings = doublings + 1;
            power2::lemma_pow2_unfold(e as nat);
            assert(t * (2 * power2::pow2((e - 1) as nat)) == (2 * t) * power2::pow2(
                (e - 1) as nat,
            )) by (nonlinear_arith);
        }
        t = t * 2;
        e = e - 1;
    }
    let wide: u128 = scaled(t, 64);
    let q: u128 = wide / my as u128;
    let sticky: bool = wide % my as u128 != 0;
    proof {
        power2::lemma2_to64();
        power2::lemma2_to64_rest();
        assert(my > 0) by (nonlinear_arith)
            requires
                den == my * power2::pow2(ey as nat),
                den > 0,
        ;
        vstd::arithmetic::div_mod::lemma_fundamental_div_mod(wide as int, my as int);
        let r = wide as int % my as int;
        assert(q * my <= wide < (q + 1) * my
            && (wide as int == q * my <==> r == 0)) by (nonlinear_arith)
            requires
                wide as int == my * q + r,
                0 <= r < my,
        ;
        assert(q >= 2 * 0x10_0000_0000_0000) by (nonlinear_arith)
            requires
                wide as int == my * q + r,
                0 <= r < my,
                wide >= 0x10_0000_0000_0000 * 0x1_0000_0000_0000_0000,
                0 < my < 0x20_0000_0000_0000,
        ;
        assert(q <= wide) by (nonlinear_arith)
            requires
                wide as int == my * q + r,
                0 <= r,
                0 < my,
                0 <= q,
        ;
        power2::lemma_pow2_adds((e - 64) as nat, 64);
        assert(num == wide * power2::pow2((e - 64) as nat)) by (nonlinear_arith)
            requires
                num == t * power2::pow2(e as nat),
                power2::pow2(e as nat) == power2::pow2((e - 64) as nat) * power2::pow2(64),
                wide == t * power2::pow2(64),
        ;
        lemma_truncated_powers(
            num,
            den,
            wide as int,
            my as int,
            q as int,
            (e - 64) as nat,
            ey as nat,
        );
    }
    round_any(q, sticky, e as i64 - 64 - ey as i64, Ghost(num), Ghost(den))
}

/// The square root of `n`, a square number of units, rounds to the double with
/// magnitude bits `m`.
pub open spec fn root_rounds_to(n: int, m: int) -> bool {
    let below = units(m - 1) + units(m);
    let above = units(m) + units(m + 1);
    &&& 0 <= m <= INFINITY
    &&& m > 0 ==> (4 * n > below * below || (4 * n == below * below && m % 2 == 0))
    &&& m < INFINITY ==> (4 * n < above * above || (4 * n == above * above && m % 2 == 0))
}

/// Integer square root.
fn integer_root(t: u128) -> (s: u128)
    requires
        t < 0x40_0000_0000_0000_0000_0000_0000_0000,
    ensures
        s * s <= t < (s + 1) * (s + 1),
        s < 0x800_0000_0000_0000,
{
    let mut s: u128 = 0;
    let mut step: u128 = 0x800_0000_0000_0000;
    proof {
        assert((0 + step) * (0 + step)
            == 0x40_0000_0000_0000_0000_0000_0000_0000) by (nonlinear_arith)
            requires
                step == 0x800_0000_0000_0000,
        ;
        power2::lemma2_to64_rest();
        assert(step == power2::pow2(59));
    }
    while step > 1
        invariant
            t < 0x40_0000_0000_0000_0000_0000_0000_0000,
            1 <= step <= 0x800_0000_0000_0000,
            step == 1 || step % 2 == 0,
            exists|k: nat| step == #[trigger] power2::pow2(k),
            s * s <= t < (s + step) * (s + step),
            s + step <= 0x800_0000_0000_0000,
        decreases step,
    {
        let ghost k = choose|k: nat| step == #[trigger] power2::pow2(k);
        proof {
            power2::lemma2_to64();
            if k == 0 {
                assert(false);
            }
            power2::lemma_pow2_unfold(k);
            if k > 1 {
                power2::lemma_pow2_unfold((k - 1) as nat);
            }
        }
        let half: u128 = step / 2;
        proof {
            assert(half == power2::pow2((k - 1) as nat));
            assert((s + half) * (s + half)
                <= 0x800_0000_0000_0000 * 0x800_0000_0000_0000) by (nonlinear_arith)
                requires
                    0 <= s + half <= 0x800_0000_0000_0000,
            ;
            assert((s + half) + half == s + step);
        }
        if (s + half) * (s + half) <= t {
            s = s + half;
        }
        step = half;
    }
    s
}

/// The units of a large double are a multiple of 2^`e + 1`.
pub proof fn lemma_units_multiple(m: int, e: nat) -> (t: int)
    requires
        0 <= m,
        exponent(m) >= e + 1,
    ensures
        units(m) == 2 * t * power2::pow2(e),
{
    let k = (exponent(m) - e) as nat;
    power2::lemma_pow2_adds(e, k);
    power2::lemma_pow2_unfold(k);
    let t = significand(m) * power2::pow2((k - 1) as nat) as int;
    assert(units(m) == 2 * t * power2::pow2(e)) by (nonlinear_arith)
        requires
            units(m) == significand(m) * power2::pow2(exponent(m)) as int,
            power2::pow2(exponent(m)) == power2::pow2(e) * power2::pow2(k),
            power2::pow2(k) == 2 * power2::pow2((k - 1) as nat),
            t == significand(m) * power2::pow2((k - 1) as nat) as int,
    ;
    t
}

/// A double of 2^54 or more times 2^`e` has an exponent above `e`.
pub proof fn lemma_large_exponent(m: int, e: nat)
    requires
        0 <= m,
        units(m) >= 0x40_0000_0000_0000 * power2::pow2(e),
    ensures
        exponent(m) >= e + 1,
{
    if exponent(m) <= e {
        if exponent(m) < e {
            power2::lemma_pow2_strictly_increases(exponent(m), e);
        }
        power2::lemma_pow2_pos(exponent(m));
        assert(significand(m) < 0x20_0000_0000_0000);
        assert(units(m) < 0x40_0000_0000_0000 * power2::pow2(e)) by (nonlinear_arith)
            requires
                units(m) == significand(m) * power2::pow2(exponent(m)) as int,
                significand(m) < 0x20_0000_0000_0000,
                0 < power2::pow2(exponent(m)) <= power2::pow2(e),
        ;
    }
}

/// Comparing twice `s` (plus one, when `sticky`) steps with a whole number of
/// double steps is comparing a root that lies there with it.
pub proof fn lemma_root_compares(n: int, s: int, sticky: bool, p: int, t: int)
    requires
        p > 0,
        s >= 0,
        t >= 0,
        (s * p) * (s * p) <= n < ((s + 1) * p) * ((s + 1) * p),
        sticky == (n != (s * p) * (s * p)),
    ensures
        (2 * s + (if sticky {
            1int
        } else {
            0int
        })) * p < 2 * t * p ==> 4 * n < (2 * t * p) * (2 * t * p),
        (2 * s + (if sticky {
            1int
        } else {
            0int
        })) * p > 2 * t * p ==> 4 * n > (2 * t * p) * (2 * t * p),
        (2 * s + (if sticky {
            1int
        } else {
            0int
        })) * p == 2 * t * p ==> 4 * n == (2 * t * p) * (2 * t * p),
{
    let c = if sticky {
        1int
    } else {
        0int
    };
    lemma_cancel(p, 2 * s + c, 2 * t);
    assert((2 * s + c) * p == p * (2 * s + c) && 2 * t * p == p * (2 * t)) by (nonlinear_arith);
    let (sp, s1p, tp) = (s * p, (s + 1) * p, t * p);
    assert((2 * t * p) * (2 * t * p) == 4 * (tp * tp)) by (nonlinear_arith)
        requires
            tp == t * p,
    ;
    if 2 * s + c < 2 * t {
        if sticky {
            assert(s1p * s1p <= tp * tp) by (nonlinear_arith)
                requires
                    s1p == (s + 1) * p,
                    tp == t * p,
                    0 <= s + 1 <= t,
                    p > 0,
            ;
        } else {
            assert(sp * sp < tp * tp) by (nonlinear_arith)
                requires
                    sp == s * p,
                    tp == t * p,
                    0 <= s < t,
                    p > 0,
            ;
        }
    } else if 2 * s + c > 2 * t {
        if sticky {
            assert(sp * sp >= tp * tp) by (nonlinear_arith)
                requires
                    sp == s * p,
                    tp == t * p,
                    s >= t >= 0,
                    p > 0,
            ;
        } else {
            assert(sp * sp > tp * tp) by (nonlinear_arith)
                requires
                    sp == s * p,
                    tp == t * p,
                    s > t >= 0,
                    p > 0,
            ;
        }
    } else {
        assert(!sticky && s == t);
    }
}

/// A root rounds the way a ratio rounds that lies at the same place between
/// two steps of 2^`e`.
pub proof fn lemma_root_rounds(n: int, s: int, sticky: bool, e: nat, m: int)
    requires
        0x200_0000_0000_0000 <= s,
        e <= 1700,
        (s * power2::pow2(e)) * (s * power2::pow2(e)) <= n < ((s + 1) * power2::pow2(e)) * ((s + 1)
            * power2::pow2(e)),
        sticky == (n != (s * power2::pow2(e)) * (s * power2::pow2(e))),
        ratio_rounds_to((2 * s + (if sticky {
            1int
        } else {
            0int
        })) * power2::pow2(e), 2, m),
    ensures
        root_rounds_to(n, m),
{
    let p = power2::pow2(e) as int;
    power2::lemma_pow2_pos(e);
    let c = if sticky {
        1int
    } else {
        0int
    };
    let num = (2 * s + c) * p;
    assert(num >= 0x400_0000_0000_0000 * p) by (nonlinear_arith)
        requires
            num == (2 * s + c) * p,
            s >= 0x200_0000_0000_0000,
            c >= 0,
            p > 0,
    ;
    assert(units(0) == 0) by (nonlinear_arith);
    if m < INFINITY {
        lemma_units_step(m);
        assert(2 * num <= (units(m) + units(m + 1)) * 2);
        assert(units(m + 1) >= 0x200_0000_0000_0000 * p);
        lemma_units_at_most_double(m);
        lemma_large_exponent(m, e);
        lemma_large_exponent(m + 1, e);
        let t0 = lemma_units_multiple(m, e);
        let t1 = lemma_units_multiple(m + 1, e);
        assert(units(m) + units(m + 1) == 2 * (t0 + t1) * p) by (nonlinear_arith)
            requires
                units(m) == 2 * t0 * p,
                units(m + 1) == 2 * t1 * p,
        ;
        assert(t0 + t1 >= 0) by (nonlinear_arith)
            requires
                2 * (t0 + t1) * p >= 0,
                p > 0,
        ;
        lemma_root_compares(n, s, sticky, p, t0 + t1);
    } else {
        assert(exponent(INFINITY as int) == 2046);
    }
    if m > 0 {
        if m == INFINITY {
            assert(exponent(INFINITY - 1) == 2045 && exponent(INFINITY as int) == 2046);
        } else {
            lemma_units_at_most_double(m - 1);
            lemma_large_exponent(m - 1, e);
        }
        let t0 = lemma_units_multiple(m - 1, e);
        let t1 = lemma_units_multiple(m, e);
        lemma_units_nonnegative(m - 1);
        lemma_units_nonnegative(m);
        assert(units(m - 1) + units(m) == 2 * (t0 + t1) * p) by (nonlinear_arith)
            requires
                units(m - 1) == 2 * t0 * p,
                units(m) == 2 * t1 * p,
        ;
        assert(t0 + t1 >= 0) by (nonlinear_arith)
            requires
                2 * (t0 + t1) * p >= 0,
                p > 0,
        ;
        lemma_root_compares(n, s, sticky, p, t0 + t1);
    }
}

pub proof fn lemma_units_nonnegative(m: int)
    requires
        0 <= m,
    ensures
        units(m) >= 0,
{
    assert(units(0) == 0) by (nonlinear_arith);
    if m > 0 {
        lemma_units_increase(0, m);
    }
}

/// The next double is at most twice as large, zero aside.
pub proof fn lemma_units_at_most_double(m: int)
    requires
        0 <= m,
        units(m + 1) >= 2,
    ensures
        units(m + 1) <= 2 * units(m),
{
    lemma_units_step(m);
    let p = power2::pow2(exponent(m)) as int;
    if m == 0 {
        power2::lemma2_to64();
        assert(units(0) == 0) by (nonlinear_arith);
    } else {
        assert(significand(m) >= 1);
        assert(units(m) >= p) by (nonlinear_arith)
            requires
                units(m) == significand(m) * p,
                significand(m) >= 1,
                p >= 1,
        ;
    }
}

/// Magnitude bits of a square root.
pub(crate) fn root(x: u64) -> (m: u64)
    requires
        0 < x < INFINITY,
    ensures
        root_rounds_to(units(x as int) * power2::pow2(1074) as int, m as int),
{
    let ghost n = units(x as int) * power2::pow2(1074) as int;
    let (mx, ex) = split(x);
    let mut t: u64 = mx;
    let mut e: u64 = ex + 1074;
    proof {
        power2::lemma_pow2_adds(ex as nat, 1074);
        assert(n == t * power2::pow2(e as nat)) by (nonlinear_arith)
            requires
                n == (mx * power2::pow2(ex as nat)) * power2::pow2(1074) as int,
                power2::pow2(e as nat) == power2::pow2(ex as nat) * power2::pow2(1074),
                t == mx,
        ;
    }
    let ghost mut doublings: nat = 0;
    proof {
        power2::lemma2_to64();
    }
    while t < LEADING
        invariant
            0 < t < 2 * LEADING,
            t >= power2::pow2(doublings),
            doublings <= 52,
            e == ex + 1074 - doublings,
            ex <= 2045,
            n == t * power2::pow2(e as nat),
        decreases 52 - doublings,
    {
        proof {
            power2::lemma2_to64_rest();
            power2::lemma_pow2_unfold(doublings + 1);
            doublings = doublings + 1;
            power2::lemma_pow2_unfold(e as nat);
            assert(t * (2 * power2::pow2((e - 1) as nat)) == (2 * t) * power2::pow2(
                (e - 1) as nat,
            )) by (nonlinear_arith);
        }
        t = t * 2;
        e = e - 1;
    }
    // An even exponent, and enough bits for the root to have 58.
    let d: u64 = if e % 2 == 0 {
        64
    } else {
        63
    };
    let wide: u128 = scaled(t, d);
    let half: u64 = (e - d) / 2;
    let s: u128 = integer_root(wide);
    let sticky: bool = s * s != wide;
    let ghost c = if sticky {
        1int
    } else {
        0int
    };
    let ghost p = power2::pow2(half as nat) as int;
    let ghost num = (2 * s + c) * p;
    proof {
        power2::lemma2_to64_rest();
        power2::lemma_pow2_pos(half as nat);
        assert(wide >= 0x10_0000_0000_0000 * 0x8000_0000_0000_0000) by (nonlinear_arith)
            requires
                wide == t * power2::pow2(d as nat),
                t >= 0x10_0000_0000_0000,
                power2::pow2(d as nat) >= 0x8000_0000_0000_0000,
        ;
        assert(s >= 0x200_0000_0000_0000) by (nonlinear_arith)
            requires
                wide < (s + 1) * (s + 1),
                wide >= 0x10_0000_0000_0000 * 0x8000_0000_0000_0000,
                s >= 0,
        ;
        // n == wide p p
        power2::lemma_pow2_adds((e - d) as nat, d as nat);
        power2::lemma_pow2_adds(half as nat, half as nat);
        assert(n == wide * (p * p)) by (nonlinear_arith)
            requires
                n == t * power2::pow2(e as nat),
                power2::pow2(e as nat) == power2::pow2((e - d) as nat) * power2::pow2(d as nat),
                power2::pow2((e - d) as nat) == p * p,
                wide == t * power2::pow2(d as nat),
        ;
        let pp = p * p;
        assert(pp > 0) by (nonlinear_arith)
            requires
                pp == p * p,
                p > 0,
        ;
        assert((s * p) * (s * p) == pp * (s * s) && ((s + 1) * p) * ((s + 1) * p) == pp * ((s + 1)
            * (s + 1)) && n == pp * wide) by (nonlinear_arith)
            requires
                pp == p * p,
                n == wide * pp,
        ;
        lemma_cancel(pp, s * s, wide as int);
        lemma_cancel(pp, wide as int, (s + 1) * (s + 1));
        // The stand-in for the root lies halfway between two steps.
        power2::lemma2_to64();
        assert(s * (p * 2) <= num * 1 < (s + 1) * (p * 2)
            && (num * 1 == s * (p * 2) <==> c == 0)) by (nonlinear_arith)
            requires
                num == (2 * s + c) * p,
                0 <= c <= 1,
                p > 0,
        ;
        assert(is_truncated(num, 2, s as int, sticky, half as int));
    }
    let m: u64 = round_any(s, sticky, half as i64, Ghost(num), Ghost(2));
    proof {
        lemma_root_rounds(n, s as int, sticky, half as nat, m as int);
    }
    m
}

/// A number that is at least 2^`doublings` and below 2^`k` has fewer doublings.
proof fn lemma_few_doublings(q: int, doublings: nat, k: nat)
    requires
        power2::pow2(doublings) <= q < power2::pow2(k),
    ensures
        doublings < k,
{
    if doublings >= k {
        lemma_pow2_at_most(k, doublings);
    }
}

/// A number times 2^`e` is 2^`k` times it, times 2^(`e` - `k`).
proof fn lemma_scale_up(q: int, e: nat, k: nat, doublings: nat)
    requires
        k <= e,
        power2::pow2(doublings) <= q,
    ensures
        q * power2::pow2(e) == (q * power2::pow2(k)) * power2::pow2((e - k) as nat),
        power2::pow2(doublings + k) <= q * power2::pow2(k),
{
    power2::lemma_pow2_adds(k, (e - k) as nat);
    power2::lemma_pow2_adds(doublings, k);
    power2::lemma_pow2_pos(k);
    let (a, b, d) = (
        power2::pow2(k) as int,
        power2::pow2((e - k) as nat) as int,
        power2::pow2(doublings) as int,
    );
    assert(q * (a * b) == (q * a) * b) by (nonlinear_arith);
    assert(d * a <= q * a) by (nonlinear_arith)
        requires
            d <= q,
            a > 0,
    ;
}

/// Magnitude bits of a whole number.
pub(crate) fn whole_bits(n: u64) -> (m: u64)
    requires
        n < 2 * LEADING,
    ensures
        m < INFINITY,
        units(m as int) == n * power2::pow2(1074),
{
    if n == 0 {
        proof {
            assert(units(0) == 0) by (nonlinear_arith);
            assert(0 * power2::pow2(1074) == 0) by (nonlinear_arith);
        }
        return 0;
    }
    let mut q: u64 = n;
    let mut e: u64 = 1074;
    let ghost mut doublings: nat = 0;
    proof {
        power2::lemma2_to64();
    }
    while q < 0x10_0000_0000
        invariant
            0 < q < 2 * LEADING,
            q >= power2::pow2(doublings),
            doublings <= 52,
            e == 1074 - doublings,
            n * power2::pow2(1074) == q * power2::pow2(e as nat),
        decreases 52 - doublings,
    {
        proof {
            power2::lemma2_to64();
            power2::lemma2_to64_rest();
            lemma_few_doublings(q as int, doublings, 36);
            lemma_scale_up(q as int, e as nat, 16, doublings);
            doublings = doublings + 16;
        }
        q = q * 0x1_0000;
        e = e - 16;
    }
    while q < 0x1_0000_0000_0000
        invariant
            0 < q < 2 * LEADING,
            q >= power2::pow2(doublings),
            doublings <= 52,
            e == 1074 - doublings,
            n * power2::pow2(1074) == q * power2::pow2(e as nat),
        decreases 52 - doublings,
    {
        proof {
            power2::lemma2_to64();
            power2::lemma2_to64_rest();
            lemma_few_doublings(q as int, doublings, 48);
            lemma_scale_up(q as int, e as nat, 4, doublings);
            doublings = doublings + 4;
        }
        q = q * 0x10;
        e = e - 4;
    }
    while q < LEADING
        invariant
            0 < q < 2 * LEADING,
            q >= power2::pow2(doublings),
            doublings <= 52,
            e == 1074 - doublings,
            n * power2::pow2(1074) == q * power2::pow2(e as nat),
        decreases 52 - doublings,
    {
        proof {
            power2::lemma2_to64_rest();
            power2::lemma_pow2_unfold(doublings + 1);
            doublings = doublings + 1;
            power2::lemma_pow2_unfold(e as nat);
            assert(q * (2 * power2::pow2((e - 1) as nat)) == (2 * q) * power2::pow2(
                (e - 1) as nat,
            )) by (nonlinear_arith);
        }
        q = q * 2;
        e = e - 1;
    }
    proof {
        lemma_units_of(e as int, q as int);
    }
    e * LEADING + q
}

/// Rounding keeps the order of ratios.
pub proof fn lemma_rounding_monotone(n1: int, d1: int, m1: int, n2: int, d2: int, m2: int)
    requires
        d1 > 0,
        d2 > 0,
        n1 * d2 <= n2 * d1,
        ratio_rounds_to(n1, d1, m1),
        ratio_rounds_to(n2, d2, m2),
    ensures
        m1 <= m2,
{
    if m1 > m2 {
        let high = units(m1 - 1) + units(m1);
        let low = units(m2) + units(m2 + 1);
        if m1 > m2 + 1 {
            lemma_units_increase(m2 + 1, m1);
            lemma_units_increase(m2, m1 - 1);
        }
        assert(2 * (n1 * d2) >= high * d1 * d2) by (nonlinear_arith)
            requires
                2 * n1 >= high * d1,
                d2 > 0,
        ;
        assert(2 * (n2 * d1) <= low * d2 * d1) by (nonlinear_arith)
            requires
                2 * n2 <= low * d2,
                d1 > 0,
        ;
        assert(high * d1 * d2 == (d1 * d2) * high
            && low * d2 * d1 == (d1 * d2) * low) by (nonlinear_arith);
        assert(d1 * d2 > 0) by (nonlinear_arith)
            requires
                d1 > 0,
                d2 > 0,
        ;
        lemma_cancel(d1 * d2, high, low);
        assert(high == low);
        // Both are ties at the same midpoint, so both neighbours would be even.
        if 2 * n1 > high * d1 {
            assert(2 * (n1 * d2) > high * d1 * d2) by (nonlinear_arith)
                requires
                    2 * n1 > high * d1,
                    d2 > 0,
            ;
        }
        if 2 * n2 < low * d2 {
            assert(2 * (n2 * d1) < low * d2 * d1) by (nonlinear_arith)
                requires
                    2 * n2 < low * d2,
                    d1 > 0,
            ;
        }
    }
}

/// A ratio that is a double's value rounds to that double.
pub proof fn lemma_exact_rounds(m: int, den: int)
    requires
        0 <= m <= INFINITY,
        den > 0,
    ensures
        ratio_rounds_to(units(m) * den, den, m),
{
    if m > 0 {
        lemma_units_step(m - 1);
        assert(2 * (units(m) * den) > (units(m - 1) + units(m)) * den) by (nonlinear_arith)
            requires
                units(m) > units(m - 1),
                den > 0,
        ;
    }
    if m < INFINITY {
        lemma_units_step(m);
        assert(2 * (units(m) * den) < (units(m) + units(m + 1)) * den) by (nonlinear_arith)
            requires
                units(m + 1) > units(m),
                den > 0,
        ;
    }
}

/// Rounding keeps the order of roots.
pub proof fn lemma_root_monotone(n1: int, m1: int, n2: int, m2: int)
    requires
        n1 <= n2,
        root_rounds_to(n1, m1),
        root_rounds_to(n2, m2),
    ensures
        m1 <= m2,
{
    if m1 > m2 {
        let high = units(m1 - 1) + units(m1);
        let low = units(m2) + units(m2 + 1);
        lemma_units_nonnegative(m2);
        lemma_units_step(m2);
        if m1 > m2 + 1 {
            lemma_units_increase(m2 + 1, m1);
            lemma_units_increase(m2, m1 - 1);
            assert(high * high > low * low) by (nonlinear_arith)
                requires
                    high > low,
                    low >= 0,
            ;
        }
    }
}

/// The double at or below a ratio, searched upwards from `m`.
proof fn lemma_floor_exists(num: int, den: int, m: int)
    requires
        den > 0,
        0 <= m <= INFINITY,
        units(m) * den <= num,
    ensures
        exists|f: int|
            m <= f <= INFINITY && #[trigger] units(f) * den <= num && (f < INFINITY ==> num < units(
                f + 1,
            ) * den),
    decreases INFINITY - m,
{
    if m < INFINITY && units(m + 1) * den <= num {
        lemma_floor_exists(num, den, m + 1);
    } else {
        assert(units(m) * den <= num);
    }
}

/// Every ratio rounds to some double.
pub proof fn lemma_rounding_exists(num: int, den: int)
    requires
        num >= 0,
        den > 0,
    ensures
        exists|m: int| ratio_rounds_to(num, den, m),
{
    assert(units(0) == 0) by (nonlinear_arith);
    assert(units(0) * den == 0) by (nonlinear_arith)
        requires
            units(0) == 0,
    ;
    lemma_floor_exists(num, den, 0);
    let f = choose|f: int|
        0 <= f <= INFINITY && #[trigger] units(f) * den <= num && (f < INFINITY ==> num < units(
            f + 1,
        ) * den);
    if f == INFINITY {
        lemma_ratio_overflows(num, den, f);
    } else {
        let middle = (units(f) + units(f + 1)) * den;
        let up = 2 * num > middle || (2 * num == middle && f % 2 == 1);
        lemma_rounds_between(num, den, f, up);
    }
}

/// A ratio rounds to one double only.
pub proof fn lemma_rounding_unique(num: int, den: int, m1: int, m2: int)
    requires
        den > 0,
        ratio_rounds_to(num, den, m1),
        ratio_rounds_to(num, den, m2),
    ensures
        m1 == m2,
{
    lemma_rounding_monotone(num, den, m1, num, den, m2);
    lemma_rounding_monotone(num, den, m2, num, den, m1);
}

/// The double at or below a root, searched upwards from `m`.
proof fn lemma_floor_root_exists(n: int, m: int)
    requires
        0 <= m <= INFINITY,
        units(m) * units(m) <= n,
    ensures
        exists|f: int|
            m <= f <= INFINITY && #[trigger] units(f) * units(f) <= n && (f < INFINITY
                ==> n < units(
                f + 1,
            ) * units(f + 1)),
    decreases INFINITY - m,
{
    if m < INFINITY && units(m + 1) * units(m + 1) <= n {
        lemma_floor_root_exists(n, m + 1);
    } else {
        assert(units(m) * units(m) <= n);
    }
}

/// Every root rounds to some double.
pub proof fn lemma_root_exists(n: int)
    requires
        n >= 0,
    ensures
        exists|m: int| root_rounds_to(n, m),
{
    assert(units(0) == 0) by (nonlinear_arith);
    assert(units(0) * units(0) == 0) by (nonlinear_arith)
        requires
            units(0) == 0,
    ;
    lemma_floor_root_exists(n, 0);
    let f = choose|f: int|
        0 <= f <= INFINITY && #[trigger] units(f) * units(f) <= n && (f < INFINITY ==> n < units(
            f + 1,
        ) * units(f + 1));
    lemma_units_nonnegative(f);
    if f > 0 {
        lemma_units_nonnegative(f - 1);
        lemma_units_step(f - 1);
        let below = units(f - 1) + units(f);
        assert(4 * n > below * below) by (nonlinear_arith)
            requires
                below < 2 * units(f),
                below >= 0,
                units(f) * units(f) <= n,
        ;
    }
    if f == INFINITY {
        assert(root_rounds_to(n, f));
    } else {
        lemma_units_step(f);
        let middle = units(f) + units(f + 1);
        if 4 * n < middle * middle || (4 * n == middle * middle && f % 2 == 0) {
            assert(root_rounds_to(n, f));
        } else {
            lemma_units_step(f + 1);
            let above = units(f + 1) + units(f + 2);
            assert(4 * n < above * above) by (nonlinear_arith)
                requires
                    above > 2 * units(f + 1),
                    n < units(f + 1) * units(f + 1),
                    units(f + 1) >= 0,
            ;
            assert(f + 1 - 1 == f);
            assert(root_rounds_to(n, f + 1));
        }
    }
}

/// A root rounds to one double only.
pub proof fn lemma_root_unique(n: int, m1: int, m2: int)
    requires
        root_rounds_to(n, m1),
        root_rounds_to(n, m2),
    ensures
        m1 == m2,
{
    lemma_root_monotone(n, m1, n, m2);
    lemma_root_monotone(n, m2, n, m1);
}

/// The significand of a normal double takes 53 bits.
proof fn lemma_normal(m: int)
    requires
        LEADING <= m,
    ensures
        LEADING <= significand(m) < 2 * LEADING,
        units(m) == significand(m) * power2::pow2(exponent(m)),
{
}

/// The spacing at a rounded square, `ed`, against the spacing at the number squared,
/// `gg`: both are powers of two.
proof fn lemma_square_spacing(j: nat, k: nat, ed: int, gg: int, limit: nat)
    requires
        ed == power2::pow2(j),
        gg == power2::pow2(k),
        ed < power2::pow2(limit + 1) * gg,
    ensures
        ed <= power2::pow2(limit) * gg,
{
    if j > k + limit {
        lemma_pow2_at_most(k + limit + 1, j);
        power2::lemma_pow2_adds(k, limit + 1);
        assert(power2::pow2(limit + 1) * gg == gg * power2::pow2(limit + 1)) by (nonlinear_arith);
    } else {
        lemma_pow2_at_most(j, k + limit);
        power2::lemma_pow2_adds(k, limit);
        assert(power2::pow2(limit) * gg == gg * power2::pow2(limit)) by (nonlinear_arith);
    }
}

/// The root of a square is the number squared, though the square was rounded: where
/// `u` = `q` `g` is the number, `sig` `ed` the rounded square in the same unit, and
/// `low` the spacing below the number.
proof fn lemma_root_between(q: int, g: int, low: int, sig: int, ed: int)
    requires
        0x10_0000_0000_0000 <= q < 0x20_0000_0000_0000,
        0x10_0000_0000_0000 <= sig,
        g >= 1,
        ed >= 1,
        low == g || (q == 0x10_0000_0000_0000 && 2 * low == g),
        ed <= 0x20_0000_0000_0000 * (g * g),
        q == 0x10_0000_0000_0000 ==> ed <= 0x10_0000_0000_0000 * (g * g),
        q == 0x10_0000_0000_0000 ==> (ed == 0x10_0000_0000_0000 * (g * g) || 2 * ed
            <= 0x10_0000_0000_0000 * (g * g)),
        2 * ((q * g) * (q * g)) <= (2 * sig + 1) * ed,
        (2 * sig - 1) * ed <= 2 * ((q * g) * (q * g)),
    ensures
        4 * (sig * ed) > (2 * (q * g) - low) * (2 * (q * g) - low),
        4 * (sig * ed) < (2 * (q * g) + g) * (2 * (q * g) + g),
{
    let u = q * g;
    let gg = g * g;
    let uu = u * u;
    assert(u * g == q * gg) by (nonlinear_arith)
        requires
            u == q * g,
            gg == g * g,
    ;
    assert((2 * u + g) * (2 * u + g) == 4 * uu + 4 * (u * g) + gg) by (nonlinear_arith)
        requires
            uu == u * u,
            gg == g * g,
    ;
    assert((2 * sig + 1) * ed == 2 * (sig * ed) + ed) by (nonlinear_arith);
    assert((2 * sig - 1) * ed == 2 * (sig * ed) - ed) by (nonlinear_arith);
    assert(gg >= 1) by (nonlinear_arith)
        requires
            gg == g * g,
            g >= 1,
    ;
    assert(q * gg >= 0x10_0000_0000_0000 * gg) by (nonlinear_arith)
        requires
            q >= 0x10_0000_0000_0000,
            gg >= 1,
    ;
    assert((2 * u - low) * (2 * u - low) == 4 * uu - 4 * (u * low) + low * low)
        by (nonlinear_arith)
        requires
            uu == u * u,
    ;
    if low == g {
        assert(low * low == gg);
        if q > 0x10_0000_0000_0000 {
            assert(q * gg >= 0x10_0000_0000_0001 * gg) by (nonlinear_arith)
                requires
                    q >= 0x10_0000_0000_0001,
                    gg >= 1,
            ;
        }
    } else {
        assert(2 * (u * low) == u * g) by (nonlinear_arith)
            requires
                2 * low == g,
        ;
        assert(4 * (low * low) == gg) by (nonlinear_arith)
            requires
                2 * low == g,
                gg == g * g,
        ;
        if ed == 0x10_0000_0000_0000 * gg {
            assert(uu == 0x10_0000_0000_0000 * ed) by (nonlinear_arith)
                requires
                    uu == u * u,
                    u == q * g,
                    q == 0x10_0000_0000_0000,
                    gg == g * g,
                    ed == 0x10_0000_0000_0000 * gg,
            ;
            assert(sig * ed >= 0x10_0000_0000_0000 * ed) by (nonlinear_arith)
                requires
                    sig >= 0x10_0000_0000_0000,
                    ed >= 1,
            ;
        }
    }
}

/// The root of a rounded square is the number that was squared, where the square
/// neither overflows nor underflows.
pub proof fn lemma_root_of_square(m: int, p: int)
    requires
        LEADING <= m < INFINITY,
        LEADING <= p < INFINITY,
        ratio_rounds_to(units(m) * units(m), power2::pow2(1074) as int, p),
    ensures
        root_rounds_to(units(p) * power2::pow2(1074) as int, m),
{
    let d = power2::pow2(1074) as int;
    let (q, g) = (significand(m), power2::pow2(exponent(m)) as int);
    let (sig, e) = (significand(p), power2::pow2(exponent(p)) as int);
    let (u, v) = (units(m), units(p));
    lemma_normal(m);
    lemma_normal(p);
    lemma_units_step(m);
    lemma_units_step(m - 1);
    lemma_units_step(p);
    lemma_units_step(p - 1);
    lemma_exponent_increases(p - 1, p);
    power2::lemma_pow2_pos(1074);
    power2::lemma_pow2_pos(exponent(m));
    power2::lemma_pow2_pos(exponent(p));
    let below = power2::pow2(exponent(p - 1)) as int;
    lemma_pow2_at_most(exponent(p - 1), exponent(p));
    let ed = e * d;
    let gg = g * g;
    power2::lemma_pow2_adds(exponent(p), 1074);
    power2::lemma_pow2_adds(exponent(m), exponent(m));
    assert(v * d == sig * ed) by (nonlinear_arith)
        requires
            v == sig * e,
            ed == e * d,
    ;
    // The two sides of rounding the square.
    assert(2 * (u * u) <= (2 * sig + 1) * ed) by (nonlinear_arith)
        requires
            2 * (u * u) <= (v + (v + e)) * d,
            v == sig * e,
            ed == e * d,
    ;
    assert((2 * sig - 1) * ed <= 2 * (u * u)) by (nonlinear_arith)
        requires
            2 * (u * u) >= ((v - below) + v) * d,
            below <= e,
            d >= 1,
            v == sig * e,
            ed == e * d,
    ;
    assert(u * u == (q * q) * gg) by (nonlinear_arith)
        requires
            u == q * g,
            gg == g * g,
    ;
    assert(ed >= 1 && gg >= 1) by (nonlinear_arith)
        requires
            ed == e * d,
            gg == g * g,
            e >= 1,
            d >= 1,
            g >= 1,
    ;
    // The spacing at the square, from its 53 bits.
    assert(0x1f_ffff_ffff_ffff * ed <= 2 * (u * u)) by (nonlinear_arith)
        requires
            (2 * sig - 1) * ed <= 2 * (u * u),
            sig >= 0x10_0000_0000_0000,
            ed >= 1,
    ;
    power2::lemma2_to64();
    power2::lemma2_to64_rest();
    assert((q * q) * gg <= 81129638414606663681390495662081 * gg) by (nonlinear_arith)
        requires
            0 <= q <= 0x1f_ffff_ffff_ffff,
            gg >= 1,
    ;
    assert(ed < 0x40_0000_0000_0000 * gg);
    lemma_square_spacing(exponent(p) + 1074, exponent(m) + exponent(m), ed, gg, 53);
    if q == 0x10_0000_0000_0000 {
        assert(q * q == 20282409603651670423947251286016) by (nonlinear_arith)
            requires
                q == 0x10_0000_0000_0000,
        ;
        assert((q * q) * gg == 20282409603651670423947251286016 * gg);
        assert(ed < 0x20_0000_0000_0000 * gg);
        lemma_square_spacing(exponent(p) + 1074, exponent(m) + exponent(m), ed, gg, 52);
        if ed < 0x10_0000_0000_0000 * gg {
            lemma_square_spacing(exponent(p) + 1074, exponent(m) + exponent(m), ed, gg, 51);
        }
    }
    let low = u - units(m - 1);
    lemma_spacing_below(m);
    lemma_root_between(q, g, low, sig, ed);
}

/// The spacing below a normal double is that at the double, or half of it at a power
/// of two.
proof fn lemma_spacing_below(m: int)
    requires
        LEADING <= m,
    ensures
        ({
            let g = power2::pow2(exponent(m)) as int;
            let low = units(m) - units(m - 1);
            low == g || (significand(m) == LEADING && 2 * low == g)
        }),
{
    let l = LEADING as int;
    lemma_units_step(m - 1);
    if m % l != 0 {
        assert((m - 1) / l == m / l);
    } else if m > l {
        assert((m - 1) / l == m / l - 1);
        power2::lemma_pow2_unfold(exponent(m));
    }
}

} // verus!
