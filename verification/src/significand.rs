//! Doubles by the bits of their significands.
use vstd::arithmetic::power2;
use vstd::prelude::*;

use crate::double::Double;
use crate::magnitude;
use crate::rounding;

verus! {

/// A double of these bits is its significand over a power of two.
pub proof fn lemma_bits(d: Double, k: nat)
    requires
        !d.is_negative(),
        magnitude::exponent(d.magnitude()) + k == 1074,
    ensures
        rounding::real_of(d) * (power2::pow2(k) as int as real) == magnitude::significand(
            d.magnitude(),
        ) as real,
{
    let e = magnitude::exponent(d.magnitude());
    let sig = magnitude::significand(d.magnitude());
    power2::lemma_pow2_adds(e, k);
    power2::lemma_pow2_pos(e);
    rounding::lemma_parts(d);
    rounding::lemma_scales();
    let (p, q, s) = (
        power2::pow2(e) as int as real,
        power2::pow2(k) as int as real,
        sig as real,
    );
    let (x, c) = (rounding::real_of(d), rounding::unit_count());
    assert(c == p * q) by (nonlinear_arith)
        requires
            c == power2::pow2(1074) as int as real,
            p == power2::pow2(e) as int as real,
            q == power2::pow2(k) as int as real,
            power2::pow2(e) * power2::pow2(k) == power2::pow2(1074),
    ;
    assert((d.value() as real) == s * p) by (nonlinear_arith)
        requires
            d.value() == sig * power2::pow2(e),
            s == sig as real,
            p == power2::pow2(e) as int as real,
    ;
    assert(x * q == s) by (nonlinear_arith)
        requires
            x * c == s * p,
            c == p * q,
            p > 0real,
    ;
}

/// The same, for a power and a significand that are known.
pub proof fn lemma_bits_are(d: Double, k: nat, q: int, n: int)
    requires
        !d.is_negative(),
        magnitude::exponent(d.magnitude()) + k == 1074,
        power2::pow2(k) == q,
        magnitude::significand(d.magnitude()) == n,
    ensures
        rounding::real_of(d) * (q as real) == n as real,
{
    lemma_bits(d, k);
}

} // verus!
