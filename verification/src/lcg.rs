//! Deterministic linear congruential generator: sampling and synthetic noise
//! need no cryptographic randomness, and results stay reproducible.
use vstd::arithmetic::{div_mod, power2};
use vstd::prelude::*;
use vstd::set_lib;

use crate::double;
use crate::double::Double;

verus! {

pub const MULTIPLIER: u64 = 6364136223846793005;

pub const INCREMENT: u64 = 1442695040888963407;

/// 2^64, the number of states.
pub open spec fn states() -> int {
    0x1_0000_0000_0000_0000
}

/// The state after `s`.
pub open spec fn step(s: int) -> int {
    (MULTIPLIER * s + INCREMENT) % states()
}

/// The state `k` steps after `s`.
pub open spec fn steps(s: int, k: nat) -> int
    decreases k,
{
    if k == 0 {
        s
    } else {
        step(steps(s, (k - 1) as nat))
    }
}

/// The index that a state stands for.
pub open spec fn index_of(s: int, n: int) -> int {
    (s / 0x2_0000_0000) % n
}

/// The bits of 2^53.
pub const UNIFORM_STATES: u64 = 0x4340_0000_0000_0000;

/// The bits of 2.0.
pub const TWO: u64 = 0x4000_0000_0000_0000;

/// The bits of 3.0.
pub const THREE: u64 = 0x4008_0000_0000_0000;

/// Tiny deterministic LCG.
pub struct Lcg(pub u64);

impl Lcg {
    /// One step.
    fn advance(&mut self)
        ensures
            final(self).0 == step(old(self).0 as int),
    {
        let product: u64 = self.0.wrapping_mul(MULTIPLIER);
        self.0 = product.wrapping_add(INCREMENT);
        proof {
            let s = old(self).0 as int;
            assert(s * MULTIPLIER == MULTIPLIER * s) by (nonlinear_arith);
            div_mod::lemma_add_mod_noop(MULTIPLIER * s, INCREMENT as int, states());
            assert(product == (MULTIPLIER * s) % states());
            div_mod::lemma_small_mod(INCREMENT as nat, states() as nat);
        }
    }

    /// A number below `n`.
    pub fn next_below(&mut self, n: usize) -> (k: usize)
        requires
            n > 0,
        ensures
            final(self).0 == step(old(self).0 as int),
            k == index_of(final(self).0 as int, n as int),
            k < n,
    {
        self.advance();
        let s: u64 = self.0;
        assert(s >> 33 == s / 0x2_0000_0000) by (bit_vector);
        ((s >> 33) as usize) % n
    }

    /// Roughly N(0,1): the sum of 4 uniforms (Irwin-Hall, sigma-corrected).
    pub fn next_gauss(&mut self) -> (g: Double)
        ensures
            final(self).0 == steps(old(self).0 as int, 4),
            g == gauss_after(old(self).0 as int),
    {
        let ghost start = self.0 as int;
        let scale: Double = Double::from_bits(UNIFORM_STATES);
        let mut sum: Double = Double::from_bits(0);
        let mut k: usize = 0;
        while k < 4
            invariant
                k <= 4,
                start == old(self).0,
                scale == (Double { bits: UNIFORM_STATES }),
                self.0 == steps(start, k as nat),
                sum == uniform_sum(start, k as nat),
            decreases 4 - k,
        {
            self.advance();
            let s: u64 = self.0;
            assert(s >> 11 == s / 0x800 && s >> 11 < 0x20_0000_0000_0000) by (bit_vector);
            sum = sum + Double::from_count(s >> 11) / scale;
            k = k + 1;
        }
        (sum - Double::from_bits(TWO)) * Double::from_bits(THREE).sqrt()
    }
}

/// Uniform numbers from the states after `s`, the first `k` of them summed: the
/// top 53 bits of each, as a fraction.
pub open spec fn uniform_sum(s: int, k: nat) -> Double
    decreases k,
{
    if k == 0 {
        Double { bits: 0 }
    } else {
        uniform_sum(s, (k - 1) as nat) + double::whole(steps(s, k) / 0x800).per(
            Double { bits: UNIFORM_STATES },
        )
    }
}

/// The normal number drawn from state `s`.
pub open spec fn gauss_after(s: int) -> Double {
    (uniform_sum(s, 4) - Double { bits: TWO }) * Double { bits: THREE }.root()
}

/// Power of the multiplier.
spec fn power_of(d: nat) -> int
    decreases d,
{
    if d == 0 {
        1
    } else {
        MULTIPLIER * power_of((d - 1) as nat)
    }
}

/// Sum of the first `d` powers of the multiplier.
spec fn geometric(d: nat) -> int
    decreases d,
{
    if d == 0 {
        0
    } else {
        1 + MULTIPLIER * geometric((d - 1) as nat)
    }
}

/// States are below the number of states.
proof fn lemma_steps_in_range(s: int, k: nat)
    requires
        0 <= s < states(),
    ensures
        0 <= steps(s, k) < states(),
    decreases k,
{
    if k > 0 {
        lemma_steps_in_range(s, (k - 1) as nat);
        div_mod::lemma_mod_bound(MULTIPLIER * steps(s, (k - 1) as nat) + INCREMENT, states());
    }
}

/// Steps compose.
pub proof fn lemma_steps_compose(s: int, i: nat, j: nat)
    ensures
        steps(steps(s, i), j) == steps(s, i + j),
    decreases j,
{
    if j > 0 {
        lemma_steps_compose(s, i, (j - 1) as nat);
        assert((i + j - 1) as nat == i + (j - 1) as nat);
    }
}

/// A number of steps is one affine map, up to a multiple `q` of the number of
/// states.
proof fn lemma_steps_affine(s: int, d: nat) -> (q: int)
    ensures
        power_of(d) * s + INCREMENT * geometric(d) == steps(s, d) + q * states(),
    decreases d,
{
    let (a, c, m) = (MULTIPLIER as int, INCREMENT as int, states());
    if d == 0 {
        assert(power_of(d) * s + c * geometric(d) == s) by (nonlinear_arith)
            requires
                power_of(d) == 1,
                geometric(d) == 0,
        ;
        assert(0 * m == 0);
        0
    } else {
        let p = lemma_steps_affine(s, (d - 1) as nat);
        let (x, g, w) = (
            steps(s, (d - 1) as nat),
            geometric((d - 1) as nat),
            power_of((d - 1) as nat),
        );
        let y = a * x + c;
        div_mod::lemma_fundamental_div_mod(y, m);
        let q = y / m + a * p;
        let t = w * s + c * g;
        assert((a * w) * s + c * (1 + a * g) == a * t + c) by (nonlinear_arith)
            requires
                t == w * s + c * g,
        ;
        assert(a * t == a * x + (a * p) * m) by (nonlinear_arith)
            requires
                t == x + p * m,
        ;
        assert(q * m == m * (y / m) + (a * p) * m) by (nonlinear_arith)
            requires
                q == y / m + a * p,
        ;
        q
    }
}

/// Closed form of the geometric sum.
proof fn lemma_geometric(d: nat)
    ensures
        power_of(d) - 1 == (MULTIPLIER - 1) * geometric(d),
    decreases d,
{
    let a = MULTIPLIER as int;
    if d > 0 {
        lemma_geometric((d - 1) as nat);
        let (w, g) = (power_of((d - 1) as nat), geometric((d - 1) as nat));
        assert(a * w - 1 == (a - 1) * (1 + a * g)) by (nonlinear_arith)
            requires
                w - 1 == (a - 1) * g,
        ;
    } else {
        assert((a - 1) * 0 == 0);
    }
}

/// Geometric sums add up.
proof fn lemma_geometric_adds(m: nat, n: nat)
    ensures
        geometric(m + n) == geometric(m) + power_of(m) * geometric(n),
    decreases m,
{
    let a = MULTIPLIER as int;
    if m > 0 {
        lemma_geometric_adds((m - 1) as nat, n);
        assert((m + n - 1) as nat == (m - 1) as nat + n);
        let (g, w, h) = (geometric((m - 1) as nat), power_of((m - 1) as nat), geometric(n));
        assert(1 + a * (g + w * h) == (1 + a * g) + (a * w) * h) by (nonlinear_arith);
    } else {
        assert(power_of(0) * geometric(n) == geometric(n)) by (nonlinear_arith)
            requires
                power_of(0) == 1,
        ;
    }
}

/// Every power of the multiplier leaves 1 over when divided by 4.
proof fn lemma_power_mod_4(d: nat)
    ensures
        power_of(d) % 4 == 1,
    decreases d,
{
    if d > 0 {
        lemma_power_mod_4((d - 1) as nat);
        let w = power_of((d - 1) as nat);
        div_mod::lemma_mul_mod_noop(MULTIPLIER as int, w, 4);
        assert(MULTIPLIER as int % 4 == 1);
    }
}

/// One more than an odd multiple of `g` is even exactly when `g` is odd.
proof fn lemma_odd_multiple(m: int, g: int)
    requires
        m % 2 == 1,
    ensures
        (1 + m * g) % 2 == (1 + g) % 2,
{
    let half = m / 2;
    let t = half * g;
    assert(m * g == 2 * t + g) by (nonlinear_arith)
        requires
            m == 2 * half + 1,
            t == half * g,
    ;
}

/// A geometric sum is even exactly when its number of terms is.
proof fn lemma_geometric_parity(d: nat)
    ensures
        geometric(d) % 2 == (d as int) % 2,
    decreases d,
{
    if d > 0 {
        lemma_geometric_parity((d - 1) as nat);
        lemma_odd_multiple(MULTIPLIER as int, geometric((d - 1) as nat));
    }
}

/// An odd factor does not help to be divisible by a power of two.
proof fn lemma_odd_factor(x: int, odd: int, k: nat)
    requires
        odd % 2 == 1,
        (x * odd) % (power2::pow2(k) as int) == 0,
    ensures
        x % (power2::pow2(k) as int) == 0,
    decreases k,
{
    power2::lemma2_to64();
    if k > 0 {
        let p = power2::pow2((k - 1) as nat) as int;
        power2::lemma_pow2_unfold(k);
        power2::lemma_pow2_pos((k - 1) as nat);
        let q = (x * odd) / (2 * p);
        div_mod::lemma_fundamental_div_mod(x * odd, 2 * p);
        assert(x * odd == 2 * (p * q)) by (nonlinear_arith)
            requires
                x * odd == (2 * p) * q,
        ;
        assert(x % 2 == 0) by {
            let h = odd / 2;
            assert(odd == 2 * h + 1);
            assert(x * odd == 2 * (x * h) + x) by (nonlinear_arith)
                requires
                    odd == 2 * h + 1,
            ;
        }
        let y = x / 2;
        assert(x == 2 * y);
        assert(y * odd == p * q) by (nonlinear_arith)
            requires
                x == 2 * y,
                x * odd == 2 * (p * q),
        ;
        div_mod::lemma_mod_multiples_basic(q, p);
        assert((y * odd) % p == 0) by {
            assert(p * q == q * p) by (nonlinear_arith);
        }
        lemma_odd_factor(y, odd, (k - 1) as nat);
        div_mod::lemma_fundamental_div_mod(y, p);
        let z = y / p;
        assert(x == z * (2 * p)) by (nonlinear_arith)
            requires
                x == 2 * y,
                y == p * z,
        ;
        div_mod::lemma_mod_multiples_basic(z, 2 * p);
    }
}

/// A geometric sum is divisible by a power of two only when its number of
/// terms is.
proof fn lemma_geometric_divisible(d: nat, k: nat)
    requires
        geometric(d) % (power2::pow2(k) as int) == 0,
    ensures
        (d as int) % (power2::pow2(k) as int) == 0,
    decreases k,
{
    power2::lemma2_to64();
    if k > 0 {
        let p = power2::pow2((k - 1) as nat) as int;
        power2::lemma_pow2_unfold(k);
        power2::lemma_pow2_pos((k - 1) as nat);
        let g = geometric(d);
        div_mod::lemma_fundamental_div_mod(g, 2 * p);
        let q = g / (2 * p);
        assert(g == 2 * (p * q)) by (nonlinear_arith)
            requires
                g == (2 * p) * q,
        ;
        lemma_geometric_parity(d);
        let m = (d / 2) as nat;
        assert(d == m + m);
        lemma_geometric_adds(m, m);
        lemma_power_mod_4(m);
        let (gm, w) = (geometric(m), power_of(m));
        let odd = (1 + w) / 2;
        assert(1 + w == 2 * odd && odd % 2 == 1);
        assert(gm * odd == p * q) by (nonlinear_arith)
            requires
                g == gm + w * gm,
                g == 2 * (p * q),
                1 + w == 2 * odd,
        ;
        div_mod::lemma_mod_multiples_basic(q, p);
        assert(p * q == q * p) by (nonlinear_arith);
        lemma_odd_factor(gm, odd, (k - 1) as nat);
        lemma_geometric_divisible(m, (k - 1) as nat);
        div_mod::lemma_fundamental_div_mod(m as int, p);
        let z = m as int / p;
        assert(d as int == z * (2 * p)) by (nonlinear_arith)
            requires
                d == m + m,
                m as int == p * z,
        ;
        div_mod::lemma_mod_multiples_basic(z, 2 * p);
    }
}

/// No state recurs before all states have come up.
proof fn lemma_no_short_cycle(s: int, d: nat)
    requires
        0 <= s < states(),
        0 < d,
        steps(s, d) == s,
    ensures
        d >= states(),
{
    let (a, c, m) = (MULTIPLIER as int, INCREMENT as int, states());
    let q = lemma_steps_affine(s, d);
    lemma_geometric(d);
    let (w, g) = (power_of(d), geometric(d));
    let odd = (a - 1) * s + c;
    assert(g * odd == q * m) by (nonlinear_arith)
        requires
            w * s + c * g == s + q * m,
            w - 1 == (a - 1) * g,
            odd == (a - 1) * s + c,
    ;
    assert(odd % 2 == 1) by {
        let h = (a - 1) / 2;
        assert(a - 1 == 2 * h);
        assert(odd == 2 * (h * s) + c) by (nonlinear_arith)
            requires
                odd == (a - 1) * s + c,
                a - 1 == 2 * h,
        ;
        assert(c % 2 == 1);
    }
    power2::lemma2_to64();
    assert(power2::pow2(64) == m);
    div_mod::lemma_mod_multiples_basic(q, m);
    lemma_odd_factor(g, odd, 64);
    lemma_geometric_divisible(d, 64);
    if d < m {
        div_mod::lemma_small_mod(d, m as nat);
    }
}

/// From any state every state is reached within 2^64 steps.
pub proof fn law_full_period(s: int, target: int)
    requires
        0 <= s < states(),
        0 <= target < states(),
    ensures
        exists|k: nat| k < states() && #[trigger] steps(s, k) == target,
{
    let all = set_lib::set_int_range(0, states());
    let f = |k: int| steps(s, k as nat);
    let reached = all.map(f);
    set_lib::lemma_int_range(0, states());
    all.lemma_map_finite(f);
    assert forall|i: int, j: int| all.contains(i) && all.contains(j) && #[trigger] f(i)
        == #[trigger] f(j) implies i == j by {
        if i < j {
            lemma_steps_in_range(s, i as nat);
            lemma_steps_compose(s, i as nat, (j - i) as nat);
            lemma_no_short_cycle(steps(s, i as nat), (j - i) as nat);
        } else if j < i {
            lemma_steps_in_range(s, j as nat);
            lemma_steps_compose(s, j as nat, (i - j) as nat);
            lemma_no_short_cycle(steps(s, j as nat), (i - j) as nat);
        }
    }
    assert forall|i: int| all.contains(i) implies reached.contains(#[trigger] f(i)) by {}
    set_lib::lemma_map_size(all, reached, f);
    assert forall|x: int| reached.contains(x) implies all.contains(x) by {
        let k = choose|k: int| all.contains(k) && f(k) == x;
        lemma_steps_in_range(s, k as nat);
    }
    set_lib::lemma_subset_equality(reached, all);
    assert(reached.contains(target));
    let k = choose|k: int| all.contains(k) && f(k) == target;
    assert(steps(s, k as nat) == target);
}

} // verus!
