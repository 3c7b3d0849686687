//! Whole numbers from doubles: towards zero, and to the nearest.
use vstd::arithmetic::div_mod;
use vstd::arithmetic::mul;
use vstd::arithmetic::power2;
use vstd::prelude::*;

use crate::double::{Double, SIGN};
use crate::magnitude;
use crate::magnitude::{INFINITY, LEADING};

verus! {

/// 2^63: one more than the largest whole number that is returned.
pub const LIMIT: u64 = 0x8000_0000_0000_0000;

/// How many times 2^(`down` - 1074) fits into the absolute value of `d`, or
/// [`LIMIT`], if more.
pub open spec fn parts_of(d: Double, down: nat) -> int {
    let parts = magnitude::units(d.magnitude()) / (power2::pow2(down) as int);
    if parts < LIMIT {
        parts
    } else {
        LIMIT as int
    }
}

/// A signed whole number with this absolute value, kept in range.
pub open spec fn signed(negative: bool, n: int) -> int {
    if negative {
        -n
    } else if n < LIMIT {
        n
    } else {
        LIMIT - 1
    }
}

/// `d` without its fraction, kept in the range of `i64`; 0, if not a number.
pub open spec fn truncated(d: Double) -> int {
    if d.nan() {
        0
    } else {
        signed(d.is_negative(), parts_of(d, 1074))
    }
}

/// The whole number nearest to `d`, away from zero where there are two, of size
/// 2^62 at most; 0, if not a number.
pub open spec fn rounded(d: Double) -> int {
    if d.nan() {
        0
    } else {
        signed(d.is_negative(), (parts_of(d, 1073) + 1) / 2)
    }
}

/// A power of two divides out.
proof fn lemma_parts(sig: int, e: nat, down: nat)
    requires
        sig >= 0,
    ensures
        e >= down ==> sig * (power2::pow2(e) as int) / (power2::pow2(down) as int) == sig
            * power2::pow2((e - down) as nat),
        e < down ==> sig * (power2::pow2(e) as int) / (power2::pow2(down) as int) == sig / (
        power2::pow2((down - e) as nat) as int),
{
    power2::lemma_pow2_pos(e);
    power2::lemma_pow2_pos(down);
    let (p, q) = (power2::pow2(e) as int, power2::pow2(down) as int);
    if e >= down {
        let k = (e - down) as nat;
        power2::lemma_pow2_adds(k, down);
        let r = power2::pow2(k) as int;
        assert(sig * (r * q) == (sig * r) * q) by (nonlinear_arith);
        div_mod::lemma_div_by_multiple(sig * r, q);
    } else {
        let k = (down - e) as nat;
        power2::lemma_pow2_adds(k, e);
        power2::lemma_pow2_pos(k);
        let r = power2::pow2(k) as int;
        assert(q == p * r) by (nonlinear_arith)
            requires
                q == r * p,
        ;
        mul::lemma_mul_is_commutative(sig, p);
        div_mod::lemma_truncate_middle(sig, p, r);
        div_mod::lemma_div_multiples_vanish_quotient(p, sig, r);
    }
}

/// The whole parts of a magnitude.
fn parts(m: u64, down: u64) -> (n: u64)
    requires
        m <= INFINITY,
        1000 <= down <= 1074,
    ensures
        n == ({
            let all = magnitude::units(m as int) / (power2::pow2(down as nat) as int);
            if all < LIMIT {
                all
            } else {
                LIMIT as int
            }
        }),
{
    let (sig, e) = if m < LEADING {
        (m, 0)
    } else {
        (LEADING + m % LEADING, m / LEADING - 1)
    };
    proof {
        lemma_parts(sig as int, e as nat, down as nat);
        power2::lemma2_to64();
        power2::lemma2_to64_rest();
    }
    if e >= down {
        let k: u64 = e - down;
        if k > 10 {
            proof {
                power2::lemma_pow2_strictly_increases(10, k as nat);
                power2::lemma_pow2_unfold(11);
                if k > 11 {
                    power2::lemma_pow2_strictly_increases(11, k as nat);
                }
                assert(sig * power2::pow2(k as nat) >= LIMIT) by (nonlinear_arith)
                    requires
                        sig >= 0x10_0000_0000_0000,
                        power2::pow2(k as nat) >= 2048,
                ;
            }
            return LIMIT;
        }
        let mut n: u64 = sig;
        let mut i: u64 = 0;
        let ghost mut p: int = 1;
        while i < k
            invariant
                i <= k <= 10,
                sig < 0x20_0000_0000_0000,
                p == power2::pow2(i as nat),
                1 <= p <= 1024,
                n == sig * p,
            decreases k - i,
        {
            proof {
                power2::lemma_pow2_unfold((i + 1) as nat);
                power2::lemma2_to64();
                if i + 1 < 10 {
                    power2::lemma_pow2_strictly_increases((i + 1) as nat, 10);
                }
                assert(sig * (2 * p) == 2 * (sig * p)) by (nonlinear_arith);
                assert(sig * (2 * p) <= 0x20_0000_0000_0000 * 1024) by (nonlinear_arith)
                    requires
                        0 <= sig < 0x20_0000_0000_0000,
                        0 <= 2 * p <= 1024,
                ;
                p = 2 * p;
            }
            n = n * 2;
            i = i + 1;
        }
        proof {
            assert(sig * p < LIMIT) by (nonlinear_arith)
                requires
                    0 <= sig < 0x20_0000_0000_0000,
                    1 <= p <= 1024,
            ;
        }
        n
    } else {
        let k: u64 = down - e;
        if k >= 53 {
            proof {
                if k > 53 {
                    power2::lemma_pow2_strictly_increases(53, k as nat);
                }
                div_mod::lemma_basic_div(sig as int, power2::pow2(k as nat) as int);
            }
            return 0;
        }
        let mut n: u64 = sig;
        let mut i: u64 = 0;
        proof {
            assert(sig / 1 == sig);
        }
        while i < k
            invariant
                i <= k < 53,
                n == sig as int / (power2::pow2(i as nat) as int),
                n <= sig,
            decreases k - i,
        {
            proof {
                power2::lemma_pow2_unfold((i + 1) as nat);
                power2::lemma_pow2_pos(i as nat);
                div_mod::lemma_div_denominator(
                    sig as int,
                    power2::pow2(i as nat) as int,
                    2,
                );
            }
            n = n / 2;
            i = i + 1;
        }
        n
    }
}

impl Double {
    /// The number without its fraction, kept in range; 0, if not a number.
    pub fn truncate(&self) -> (n: i64)
        ensures
            n == truncated(*self),
    {
        if self.is_nan() {
            return 0;
        }
        let n: u64 = parts(self.magnitude_bits(), 1074);
        if self.bits >= SIGN {
            if n == LIMIT {
                i64::MIN
            } else {
                -(n as i64)
            }
        } else if n == LIMIT {
            i64::MAX
        } else {
            n as i64
        }
    }

    /// The nearest whole number, away from zero where there are two, of size 2^62
    /// at most; 0, if not a number.
    pub fn round(&self) -> (n: i64)
        ensures
            n == rounded(*self),
    {
        if self.is_nan() {
            return 0;
        }
        let n: u64 = (parts(self.magnitude_bits(), 1073) + 1) / 2;
        if self.bits >= SIGN {
            -(n as i64)
        } else {
            n as i64
        }
    }
}

} // verus!
