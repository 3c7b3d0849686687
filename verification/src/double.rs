//! IEEE 754 doubles by bit pattern: order, extrema, and the correctly rounded
//! operations.
use vstd::arithmetic::power2;
use vstd::prelude::*;

use crate::magnitude;
use crate::magnitude::INFINITY;

verus! {

/// Sign bit of a double.
pub const SIGN: u64 = 0x8000_0000_0000_0000;

/// Bits of the NaN that operations return.
pub const NAN: u64 = 0x7ff8_0000_0000_0000;

/// A double, held by its bit pattern.
#[derive(Clone, Copy, Debug, PartialEq, Eq, Structural)]
pub struct Double {
    pub bits: u64,
}

impl Double {
    pub open spec fn is_negative(self) -> bool {
        self.bits >= SIGN
    }

    /// Bits without the sign.
    pub open spec fn magnitude(self) -> int {
        if self.bits >= SIGN {
            self.bits - SIGN
        } else {
            self.bits as int
        }
    }

    pub open spec fn nan(self) -> bool {
        self.magnitude() > INFINITY
    }

    pub open spec fn finite(self) -> bool {
        self.magnitude() < INFINITY
    }

    /// Exact value in units of 2^-1074; means nothing for a NaN.
    pub open spec fn value(self) -> int {
        if self.is_negative() {
            -magnitude::units(self.magnitude())
        } else {
            magnitude::units(self.magnitude())
        }
    }

    /// The double with the other sign.
    pub open spec fn opposite(self) -> Double {
        Double {
            bits: if self.bits >= SIGN {
                (self.bits - SIGN) as u64
            } else {
                (self.bits + SIGN) as u64
            },
        }
    }

    /// `self < other`, false when either is not a number.
    pub open spec fn less(self, other: Double) -> bool {
        !self.nan() && !other.nan() && self.value() < other.value()
    }

    /// `self <= other`, false when either is not a number.
    pub open spec fn at_most(self, other: Double) -> bool {
        !self.nan() && !other.nan() && self.value() <= other.value()
    }

    /// `self == other`, false when either is not a number.
    pub open spec fn same(self, other: Double) -> bool {
        !self.nan() && !other.nan() && self.value() == other.value()
    }
}

/// The order of the values is the order of the signed magnitude bits.
proof fn lemma_order(a: Double, b: Double)
    ensures
        a.value() < b.value() <==> (if a.is_negative() {
            -a.magnitude()
        } else {
            a.magnitude()
        }) < (if b.is_negative() {
            -b.magnitude()
        } else {
            b.magnitude()
        }),
{
    let (m, n) = (a.magnitude(), b.magnitude());
    assert(magnitude::units(0) == 0) by (nonlinear_arith);
    if m > 0 {
        magnitude::lemma_units_increase(0, m);
    }
    if n > 0 {
        magnitude::lemma_units_increase(0, n);
    }
    if m < n {
        magnitude::lemma_units_increase(m, n);
    }
    if n < m {
        magnitude::lemma_units_increase(n, m);
    }
}

impl Double {
    /// The double with these bits.
    pub fn from_bits(bits: u64) -> (d: Double)
        ensures
            d.bits == bits,
    {
        Double { bits }
    }

    pub fn is_nan(&self) -> (r: bool)
        ensures
            r == self.nan(),
    {
        self.magnitude_bits() > INFINITY
    }

    pub fn is_finite(&self) -> (r: bool)
        ensures
            r == self.finite(),
    {
        self.magnitude_bits() < INFINITY
    }

    pub fn magnitude_bits(&self) -> (m: u64)
        ensures
            m == self.magnitude(),
            m < SIGN,
    {
        if self.bits >= SIGN {
            self.bits - SIGN
        } else {
            self.bits
        }
    }

    fn order_key(&self) -> (k: i64)
        ensures
            k == (if self.is_negative() {
                -self.magnitude()
            } else {
                self.magnitude()
            }),
    {
        let m: u64 = self.magnitude_bits();
        if self.bits >= SIGN {
            -(m as i64)
        } else {
            m as i64
        }
    }

    /// `self < other` as floating point has it.
    pub fn lt(&self, other: &Double) -> (r: bool)
        ensures
            r == self.less(*other),
    {
        proof {
            lemma_order(*self, *other);
        }
        !self.is_nan() && !other.is_nan() && self.order_key() < other.order_key()
    }

    /// `self <= other` as floating point has it.
    pub fn le(&self, other: &Double) -> (r: bool)
        ensures
            r == self.at_most(*other),
    {
        proof {
            lemma_order(*other, *self);
        }
        !self.is_nan() && !other.is_nan() && self.order_key() <= other.order_key()
    }

    /// `self == other` as floating point has it.
    pub fn equals(&self, other: &Double) -> (r: bool)
        ensures
            r == self.same(*other),
    {
        self.le(other) && other.le(self)
    }

    /// The larger of two doubles; a NaN loses against anything else.
    pub fn max(&self, other: &Double) -> (r: Double)
        ensures
            r == larger(*self, *other),
    {
        if self.is_nan() || self.lt(other) {
            *other
        } else {
            *self
        }
    }

    /// The smaller of two doubles; a NaN loses against anything else.
    pub fn min(&self, other: &Double) -> (r: Double)
        ensures
            r == smaller(*self, *other),
    {
        if self.is_nan() || other.lt(self) {
            *other
        } else {
            *self
        }
    }

    /// The double without its sign.
    pub fn abs(&self) -> (r: Double)
        ensures
            r == absolute(*self),
    {
        Double { bits: self.magnitude_bits() }
    }

    /// The double with the opposite sign.
    pub fn negate(&self) -> (r: Double)
        ensures
            r == self.opposite(),
            r.value() == -self.value(),
    {
        if self.bits >= SIGN {
            Double { bits: self.bits - SIGN }
        } else {
            Double { bits: self.bits + SIGN }
        }
    }
}

/// The larger of two doubles; a NaN loses against anything else.
pub open spec fn larger(a: Double, b: Double) -> Double {
    if a.nan() || a.less(b) {
        b
    } else {
        a
    }
}

/// The smaller of two doubles; a NaN loses against anything else.
pub open spec fn smaller(a: Double, b: Double) -> Double {
    if a.nan() || b.less(a) {
        b
    } else {
        a
    }
}

/// The double without its sign.
pub open spec fn absolute(a: Double) -> Double {
    Double { bits: a.magnitude() as u64 }
}

/// `r` is the floating-point sum of `a` and `b`: the exact sum, rounded to
/// nearest.
pub open spec fn is_sum(a: Double, b: Double, r: Double) -> bool {
    if a.nan() || b.nan() {
        r.bits == NAN
    } else if !a.finite() && !b.finite() {
        if a.is_negative() == b.is_negative() {
            r == a
        } else {
            r.bits == NAN
        }
    } else if !a.finite() {
        r == a
    } else if !b.finite() {
        r == b
    } else {
        let exact = a.value() + b.value();
        if exact == 0 {
            r.magnitude() == 0 && r.is_negative() == (a.is_negative() && b.is_negative())
        } else if exact < 0 {
            r.is_negative() && magnitude::rounds_to(-exact, r.magnitude())
        } else {
            !r.is_negative() && magnitude::rounds_to(exact, r.magnitude())
        }
    }
}

impl Double {
    /// Floating-point sum.
    pub fn plus(&self, other: &Double) -> (r: Double)
        ensures
            r == sum(*self, *other),
            is_sum(*self, *other, r),
    {
        proof {
            lemma_sum(*self, *other);
        }
        let r: Double = self.add_rounded(other);
        proof {
            lemma_sum_unique(*self, *other, r, sum(*self, *other));
        }
        r
    }

    fn add_rounded(&self, other: &Double) -> (r: Double)
        ensures
            is_sum(*self, *other, r),
    {
        if self.is_nan() || other.is_nan() {
            return Double { bits: NAN };
        }
        let x: u64 = self.magnitude_bits();
        let y: u64 = other.magnitude_bits();
        let neg_x: bool = self.bits >= SIGN;
        let neg_y: bool = other.bits >= SIGN;
        if x == INFINITY {
            if y == INFINITY && neg_x != neg_y {
                return Double { bits: NAN };
            }
            return *self;
        }
        if y == INFINITY {
            return *other;
        }
        proof {
            assert(magnitude::units(0) == 0) by (nonlinear_arith);
            if x > 0 {
                magnitude::lemma_units_increase(0, x as int);
            }
            if y > 0 {
                magnitude::lemma_units_increase(0, y as int);
            }
            if x < y {
                magnitude::lemma_units_increase(x as int, y as int);
            }
            if y < x {
                magnitude::lemma_units_increase(y as int, x as int);
            }
        }
        let m: u64 = if x >= y {
            magnitude::combine(x, y, neg_x != neg_y)
        } else {
            magnitude::combine(y, x, neg_x != neg_y)
        };
        let negative: bool = if neg_x == neg_y {
            neg_x
        } else if x == y {
            false
        } else if x > y {
            neg_x
        } else {
            neg_y
        };
        if negative {
            Double { bits: m + SIGN }
        } else {
            Double { bits: m }
        }
    }

    /// Floating-point difference: the sum with the negated other.
    pub fn minus(&self, other: &Double) -> (r: Double)
        ensures
            r == difference(*self, *other),
            is_sum(*self, other.opposite(), r),
    {
        let opposite: Double = other.negate();
        self.plus(&opposite)
    }
}

/// `r` is the floating-point product of `a` and `b`: the exact product,
/// rounded to nearest.
pub open spec fn is_product(a: Double, b: Double, r: Double) -> bool {
    if a.nan() || b.nan() {
        r.bits == NAN
    } else if (!a.finite() && b.magnitude() == 0) || (a.magnitude() == 0 && !b.finite()) {
        r.bits == NAN
    } else {
        &&& r.is_negative() == (a.is_negative() != b.is_negative())
        &&& if a.finite() && b.finite() {
            magnitude::ratio_rounds_to(
                magnitude::units(a.magnitude()) * magnitude::units(b.magnitude()),
                power2::pow2(1074) as int,
                r.magnitude(),
            )
        } else {
            r.magnitude() == INFINITY
        }
    }
}

/// `r` is the floating-point quotient of `a` and `b`: the exact quotient,
/// rounded to nearest.
pub open spec fn is_quotient(a: Double, b: Double, r: Double) -> bool {
    if a.nan() || b.nan() || (!a.finite() && !b.finite()) || (a.magnitude() == 0 && b.magnitude()
        == 0) {
        r.bits == NAN
    } else {
        &&& r.is_negative() == (a.is_negative() != b.is_negative())
        &&& if !a.finite() || b.magnitude() == 0 {
            r.magnitude() == INFINITY
        } else if !b.finite() {
            r.magnitude() == 0
        } else {
            magnitude::ratio_rounds_to(
                magnitude::units(a.magnitude()) * power2::pow2(1074) as int,
                magnitude::units(b.magnitude()),
                r.magnitude(),
            )
        }
    }
}

impl Double {
    /// Floating-point product.
    pub fn times(&self, other: &Double) -> (r: Double)
        ensures
            r == product(*self, *other),
            is_product(*self, *other, r),
    {
        proof {
            lemma_product(*self, *other);
        }
        let r: Double = self.multiply_rounded(other);
        proof {
            lemma_product_unique(*self, *other, r, product(*self, *other));
        }
        r
    }

    fn multiply_rounded(&self, other: &Double) -> (r: Double)
        ensures
            is_product(*self, *other, r),
    {
        if self.is_nan() || other.is_nan() {
            return Double { bits: NAN };
        }
        let x: u64 = self.magnitude_bits();
        let y: u64 = other.magnitude_bits();
        let m: u64 = if x == INFINITY || y == INFINITY {
            if x == 0 || y == 0 {
                return Double { bits: NAN };
            }
            INFINITY
        } else {
            magnitude::multiply(x, y)
        };
        if (self.bits >= SIGN) != (other.bits >= SIGN) {
            Double { bits: m + SIGN }
        } else {
            Double { bits: m }
        }
    }

    /// Floating-point quotient.
    pub fn over(&self, other: &Double) -> (r: Double)
        ensures
            r == quotient(*self, *other),
            is_quotient(*self, *other, r),
    {
        proof {
            lemma_quotient(*self, *other);
        }
        let r: Double = self.divide_rounded(other);
        proof {
            lemma_quotient_unique(*self, *other, r, quotient(*self, *other));
        }
        r
    }

    fn divide_rounded(&self, other: &Double) -> (r: Double)
        ensures
            is_quotient(*self, *other, r),
    {
        if self.is_nan() || other.is_nan() {
            return Double { bits: NAN };
        }
        let x: u64 = self.magnitude_bits();
        let y: u64 = other.magnitude_bits();
        if (x == INFINITY && y == INFINITY) || (x == 0 && y == 0) {
            return Double { bits: NAN };
        }
        let m: u64 = if x == INFINITY || y == 0 {
            INFINITY
        } else if y == INFINITY {
            0
        } else {
            magnitude::divide(x, y)
        };
        if (self.bits >= SIGN) != (other.bits >= SIGN) {
            Double { bits: m + SIGN }
        } else {
            Double { bits: m }
        }
    }
}

/// `r` is the floating-point square root of `a`: the exact root, rounded to
/// nearest.
pub open spec fn is_root(a: Double, r: Double) -> bool {
    if a.nan() || a.value() < 0 {
        r.bits == NAN
    } else if a.magnitude() == 0 || !a.finite() {
        r == a
    } else {
        !r.is_negative() && magnitude::root_rounds_to(
            magnitude::units(a.magnitude()) * power2::pow2(1074) as int,
            r.magnitude(),
        )
    }
}

impl Double {
    /// Floating-point square root.
    pub fn sqrt(&self) -> (r: Double)
        ensures
            r == root(*self),
            is_root(*self, r),
    {
        proof {
            lemma_root(*self);
        }
        let r: Double = self.root_rounded();
        proof {
            lemma_root_unique(*self, r, root(*self));
        }
        r
    }

    fn root_rounded(&self) -> (r: Double)
        ensures
            is_root(*self, r),
    {
        if self.is_nan() {
            return Double { bits: NAN };
        }
        let x: u64 = self.magnitude_bits();
        proof {
            assert(magnitude::units(0) == 0) by (nonlinear_arith);
            if x > 0 {
                magnitude::lemma_units_increase(0, x as int);
            }
        }
        if x == 0 {
            return *self;
        }
        if self.bits >= SIGN {
            return Double { bits: NAN };
        }
        if x == INFINITY {
            return *self;
        }
        Double { bits: magnitude::root(x) }
    }
}

/// The floating-point sum.
pub open spec fn sum(a: Double, b: Double) -> Double {
    choose|r: Double| is_sum(a, b, r)
}

/// The floating-point difference.
pub open spec fn difference(a: Double, b: Double) -> Double {
    sum(a, b.opposite())
}

/// The floating-point product.
pub open spec fn product(a: Double, b: Double) -> Double {
    choose|r: Double| is_product(a, b, r)
}

/// The floating-point quotient.
pub open spec fn quotient(a: Double, b: Double) -> Double {
    choose|r: Double| is_quotient(a, b, r)
}

/// The floating-point square root.
pub open spec fn root(a: Double) -> Double {
    choose|r: Double| is_root(a, r)
}

/// The double with this sign and these magnitude bits.
spec fn assemble(negative: bool, m: int) -> Double {
    Double {
        bits: if negative {
            (m + SIGN) as u64
        } else {
            m as u64
        },
    }
}

/// The magnitude bits that a ratio rounds to.
spec fn rounded_ratio(num: int, den: int) -> int {
    choose|m: int| magnitude::ratio_rounds_to(num, den, m)
}

/// Two doubles of the same sign and magnitude are the same.
proof fn lemma_parts_determine(a: Double, b: Double)
    requires
        a.is_negative() == b.is_negative(),
        a.magnitude() == b.magnitude(),
    ensures
        a == b,
{
}

/// There is a floating-point sum.
pub proof fn lemma_sum(a: Double, b: Double)
    ensures
        is_sum(a, b, sum(a, b)),
{
    let exact = a.value() + b.value();
    let witness = if a.nan() || b.nan() || (!a.finite() && !b.finite() && a.is_negative()
        != b.is_negative()) {
        Double { bits: NAN }
    } else if !a.finite() {
        a
    } else if !b.finite() {
        b
    } else if exact == 0 {
        assemble(a.is_negative() && b.is_negative(), 0)
    } else if exact < 0 {
        magnitude::lemma_rounding_exists(-exact, 1);
        assemble(true, rounded_ratio(-exact, 1))
    } else {
        magnitude::lemma_rounding_exists(exact, 1);
        assemble(false, rounded_ratio(exact, 1))
    };
    assert(is_sum(a, b, witness));
}

/// There is one floating-point sum only.
pub proof fn lemma_sum_unique(a: Double, b: Double, r1: Double, r2: Double)
    requires
        is_sum(a, b, r1),
        is_sum(a, b, r2),
    ensures
        r1 == r2,
{
    let exact = a.value() + b.value();
    if a.finite() && b.finite() {
        if exact < 0 {
            magnitude::lemma_rounding_unique(-exact, 1, r1.magnitude(), r2.magnitude());
        } else if exact > 0 {
            magnitude::lemma_rounding_unique(exact, 1, r1.magnitude(), r2.magnitude());
        }
        lemma_parts_determine(r1, r2);
    }
}

/// There is a floating-point product.
pub proof fn lemma_product(a: Double, b: Double)
    ensures
        is_product(a, b, product(a, b)),
{
    let num = magnitude::units(a.magnitude()) * magnitude::units(b.magnitude());
    let den = power2::pow2(1074) as int;
    power2::lemma_pow2_pos(1074);
    lemma_signs(a);
    lemma_signs(b);
    assert(num >= 0) by (nonlinear_arith)
        requires
            num == magnitude::units(a.magnitude()) * magnitude::units(b.magnitude()),
            magnitude::units(a.magnitude()) >= 0,
            magnitude::units(b.magnitude()) >= 0,
    ;
    magnitude::lemma_rounding_exists(num, den);
    let negative = a.is_negative() != b.is_negative();
    let witness = if a.nan() || b.nan() || (!a.finite() && b.magnitude() == 0) || (a.magnitude()
        == 0 && !b.finite()) {
        Double { bits: NAN }
    } else if a.finite() && b.finite() {
        assemble(negative, rounded_ratio(num, den))
    } else {
        assemble(negative, INFINITY as int)
    };
    assert(is_product(a, b, witness));
}

/// There is one floating-point product only.
pub proof fn lemma_product_unique(a: Double, b: Double, r1: Double, r2: Double)
    requires
        is_product(a, b, r1),
        is_product(a, b, r2),
    ensures
        r1 == r2,
{
    if a.finite() && b.finite() {
        power2::lemma_pow2_pos(1074);
        magnitude::lemma_rounding_unique(
            magnitude::units(a.magnitude()) * magnitude::units(b.magnitude()),
            power2::pow2(1074) as int,
            r1.magnitude(),
            r2.magnitude(),
        );
    }
    if r1.bits != NAN || r2.bits != NAN {
        lemma_parts_determine(r1, r2);
    }
}

/// There is a floating-point quotient.
pub proof fn lemma_quotient(a: Double, b: Double)
    ensures
        is_quotient(a, b, quotient(a, b)),
{
    let num = magnitude::units(a.magnitude()) * power2::pow2(1074) as int;
    let den = magnitude::units(b.magnitude());
    power2::lemma_pow2_pos(1074);
    lemma_signs(a);
    lemma_signs(b);
    assert(num >= 0) by (nonlinear_arith)
        requires
            num == magnitude::units(a.magnitude()) * power2::pow2(1074) as int,
            magnitude::units(a.magnitude()) >= 0,
            power2::pow2(1074) as int > 0,
    ;
    if den > 0 {
        magnitude::lemma_rounding_exists(num, den);
    }
    let negative = a.is_negative() != b.is_negative();
    let witness = if a.nan() || b.nan() || (!a.finite() && !b.finite()) || (a.magnitude() == 0
        && b.magnitude() == 0) {
        Double { bits: NAN }
    } else if !a.finite() || b.magnitude() == 0 {
        assemble(negative, INFINITY as int)
    } else if !b.finite() {
        assemble(negative, 0)
    } else {
        assemble(negative, rounded_ratio(num, den))
    };
    assert(is_quotient(a, b, witness));
}

/// There is one floating-point quotient only.
pub proof fn lemma_quotient_unique(a: Double, b: Double, r1: Double, r2: Double)
    requires
        is_quotient(a, b, r1),
        is_quotient(a, b, r2),
    ensures
        r1 == r2,
{
    lemma_signs(b);
    if a.finite() && b.finite() && b.magnitude() != 0 {
        magnitude::lemma_rounding_unique(
            magnitude::units(a.magnitude()) * power2::pow2(1074) as int,
            magnitude::units(b.magnitude()),
            r1.magnitude(),
            r2.magnitude(),
        );
    }
    if r1.bits != NAN || r2.bits != NAN {
        lemma_parts_determine(r1, r2);
    }
}

/// There is a floating-point square root.
pub proof fn lemma_root(a: Double)
    ensures
        is_root(a, root(a)),
{
    let n = magnitude::units(a.magnitude()) * power2::pow2(1074) as int;
    power2::lemma_pow2_pos(1074);
    lemma_signs(a);
    assert(n >= 0) by (nonlinear_arith)
        requires
            n == magnitude::units(a.magnitude()) * power2::pow2(1074) as int,
            magnitude::units(a.magnitude()) >= 0,
            power2::pow2(1074) as int > 0,
    ;
    magnitude::lemma_root_exists(n);
    let witness = if a.nan() || a.value() < 0 {
        Double { bits: NAN }
    } else if a.magnitude() == 0 || !a.finite() {
        a
    } else {
        assemble(false, choose|m: int| magnitude::root_rounds_to(n, m))
    };
    assert(is_root(a, witness));
}

/// There is one floating-point square root only.
pub proof fn lemma_root_unique(a: Double, r1: Double, r2: Double)
    requires
        is_root(a, r1),
        is_root(a, r2),
    ensures
        r1 == r2,
{
    if a.finite() && a.magnitude() != 0 && !a.nan() && a.value() >= 0 {
        magnitude::lemma_root_unique(
            magnitude::units(a.magnitude()) * power2::pow2(1074) as int,
            r1.magnitude(),
            r2.magnitude(),
        );
        lemma_parts_determine(r1, r2);
    }
}

/// A sum is no larger than any double that the exact sum does not exceed.
pub proof fn lemma_sum_at_most(a: Double, b: Double, r: Double, bound: Double)
    requires
        a.finite(),
        b.finite(),
        is_sum(a, b, r),
        !bound.nan(),
        a.value() + b.value() <= bound.value(),
    ensures
        !r.nan(),
        r.value() <= bound.value(),
{
    let exact = a.value() + b.value();
    let (m, n) = (r.magnitude(), bound.magnitude());
    lemma_signs(bound);
    lemma_signs(r);
    magnitude::lemma_exact_rounds(n, 1);
    if exact > 0 {
        magnitude::lemma_rounding_monotone(exact, 1, m, magnitude::units(n) * 1, 1, n);
        if m < n {
            magnitude::lemma_units_increase(m, n);
        }
    } else if exact < 0 && bound.value() < 0 {
        magnitude::lemma_rounding_monotone(magnitude::units(n) * 1, 1, n, -exact, 1, m);
        if n < m {
            magnitude::lemma_units_increase(n, m);
        }
    }
}

/// A sum is no smaller than any double that does not exceed the exact sum.
pub proof fn lemma_sum_at_least(a: Double, b: Double, r: Double, bound: Double)
    requires
        a.finite(),
        b.finite(),
        is_sum(a, b, r),
        !bound.nan(),
        a.value() + b.value() >= bound.value(),
    ensures
        !r.nan(),
        r.value() >= bound.value(),
{
    let exact = a.value() + b.value();
    let (m, n) = (r.magnitude(), bound.magnitude());
    lemma_signs(bound);
    lemma_signs(r);
    magnitude::lemma_exact_rounds(n, 1);
    if exact < 0 {
        magnitude::lemma_rounding_monotone(-exact, 1, m, magnitude::units(n) * 1, 1, n);
        if m < n {
            magnitude::lemma_units_increase(m, n);
        }
    } else if exact > 0 && bound.value() > 0 {
        magnitude::lemma_rounding_monotone(magnitude::units(n) * 1, 1, n, exact, 1, m);
        if n < m {
            magnitude::lemma_units_increase(n, m);
        }
    }
}

/// A whole number from zero up, as a double.
pub open spec fn is_whole(d: Double, n: int) -> bool {
    d.finite() && !d.is_negative() && d.value() == n * power2::pow2(1074)
}

/// The double that is the whole number `n`.
pub open spec fn whole(n: int) -> Double {
    choose|d: Double| is_whole(d, n)
}

/// A whole number is one double only.
pub proof fn lemma_whole_unique(n: int, d1: Double, d2: Double)
    requires
        is_whole(d1, n),
        is_whole(d2, n),
    ensures
        d1 == d2,
{
    if d1.magnitude() < d2.magnitude() {
        magnitude::lemma_units_increase(d1.magnitude(), d2.magnitude());
    } else if d2.magnitude() < d1.magnitude() {
        magnitude::lemma_units_increase(d2.magnitude(), d1.magnitude());
    }
    lemma_parts_determine(d1, d2);
}

/// Every whole number of up to 53 bits is a double.
pub proof fn lemma_whole(n: int)
    requires
        0 <= n < 0x20_0000_0000_0000,
    ensures
        is_whole(whole(n), n),
{
    if n == 0 {
        assert(magnitude::units(0) == 0) by (nonlinear_arith);
        assert(is_whole(Double { bits: 0 }, 0)) by {
            assert(0 * power2::pow2(1074) == 0) by (nonlinear_arith);
        }
    } else {
        power2::lemma2_to64();
        assert(n * power2::pow2(0) == n) by (nonlinear_arith)
            requires
                power2::pow2(0) == 1,
        ;
        lemma_whole_witness(n, n, 0);
    }
}

/// The double of `n`, where `q` is `n` doubled `k` times.
proof fn lemma_whole_witness(n: int, q: int, k: nat)
    requires
        0 < n,
        0 < q < 0x20_0000_0000_0000,
        k <= 1000,
        q == n * power2::pow2(k),
        power2::pow2(k) <= q,
    ensures
        exists|d: Double| is_whole(d, n),
    decreases 0x20_0000_0000_0000 - q,
{
    power2::lemma2_to64();
    power2::lemma2_to64_rest();
    if q >= 0x10_0000_0000_0000 {
        if k > 53 {
            power2::lemma_pow2_strictly_increases(53, k);
        }
        let e = 1074 - k;
        magnitude::lemma_units_of(e, q);
        power2::lemma_pow2_adds(k, e as nat);
        assert(q * power2::pow2(e as nat) == n * power2::pow2(1074)) by (nonlinear_arith)
            requires
                q == n * power2::pow2(k),
                power2::pow2(k) * power2::pow2(e as nat) == power2::pow2(1074),
        ;
        let d = Double { bits: (e * 0x10_0000_0000_0000 + q) as u64 };
        assert(is_whole(d, n));
    } else {
        power2::lemma_pow2_unfold(k + 1);
        if k > 52 {
            power2::lemma_pow2_strictly_increases(52, k);
        }
        assert(2 * q == n * power2::pow2(k + 1)) by (nonlinear_arith)
            requires
                q == n * power2::pow2(k),
                power2::pow2(k + 1) == 2 * power2::pow2(k),
        ;
        lemma_whole_witness(n, 2 * q, k + 1);
    }
}

impl Double {
    /// The whole number `n` as a double.
    pub fn from_count(n: u64) -> (d: Double)
        requires
            n < 0x20_0000_0000_0000,
        ensures
            d == whole(n as int),
            is_whole(d, n as int),
    {
        let d: Double = Double { bits: magnitude::whole_bits(n) };
        proof {
            assert(is_whole(d, n as int));
            lemma_whole_unique(n as int, d, whole(n as int));
        }
        d
    }
}

/// The double nearest a whole number from zero up, an even one of two.
pub open spec fn is_nearest(d: Double, n: int) -> bool {
    !d.is_negative() && magnitude::rounds_to(n * power2::pow2(1074), d.magnitude())
}

/// The double nearest the whole number `n`.
pub open spec fn nearest(n: int) -> Double {
    choose|d: Double| is_nearest(d, n)
}

/// One double only is the nearest to a whole number.
proof fn lemma_nearest_unique(n: int, d1: Double, d2: Double)
    requires
        is_nearest(d1, n),
        is_nearest(d2, n),
    ensures
        d1 == d2,
{
    magnitude::lemma_rounding_unique(
        n * power2::pow2(1074),
        1,
        d1.magnitude(),
        d2.magnitude(),
    );
    lemma_parts_determine(d1, d2);
}

impl Double {
    /// The double nearest the whole number `n`.
    pub fn from_whole(n: u64) -> (d: Double)
        ensures
            d == nearest(n as int),
            is_nearest(d, n as int),
    {
        let d: Double = Double { bits: magnitude::nearest_bits(n) };
        proof {
            assert(is_nearest(d, n as int));
            lemma_nearest_unique(n as int, d, nearest(n as int));
        }
        d
    }
}

/// The difference of two small whole numbers is exact.
pub proof fn lemma_whole_difference(m: int, n: int)
    requires
        0 <= m < 0x20_0000_0000_0000,
        0 <= n < 0x20_0000_0000_0000,
    ensures
        difference(whole(m), whole(n)).finite(),
        difference(whole(m), whole(n)).value() == (m - n) * power2::pow2(1074),
{
    lemma_whole(m);
    lemma_whole(n);
    let (a, b) = (whole(m), whole(n));
    let r = difference(a, b);
    let p = power2::pow2(1074) as int;
    lemma_opposite_value(b);
    lemma_sum(a, b.opposite());
    assert((m - n) * p == m * p - n * p && (n - m) * p == n * p - m * p) by (nonlinear_arith);
    let exact = a.value() + b.opposite().value();
    assert(exact == (m - n) * p);
    let size = if m < n {
        n - m
    } else {
        m - n
    };
    lemma_whole(size);
    let w = whole(size);
    magnitude::lemma_exact_rounds(w.magnitude(), 1);
    if exact != 0 {
        magnitude::lemma_rounding_unique(size * p, 1, r.magnitude(), w.magnitude());
    } else {
        assert(magnitude::units(0) == 0) by (nonlinear_arith);
    }
}

/// Products keep the order of the exact products.
pub proof fn lemma_product_monotone(a: Double, b: Double, c: Double, d: Double)
    requires
        a.finite(),
        b.finite(),
        c.finite(),
        d.finite(),
        a.value() * b.value() <= c.value() * d.value(),
    ensures
        product(a, b).value() <= product(c, d).value(),
{
    lemma_product(a, b);
    lemma_product(c, d);
    lemma_signs(a);
    lemma_signs(b);
    lemma_signs(c);
    lemma_signs(d);
    power2::lemma_pow2_pos(1074);
    let (x, y) = (product(a, b), product(c, d));
    let (ua, ub) = (magnitude::units(a.magnitude()), magnitude::units(b.magnitude()));
    let (uc, ud) = (magnitude::units(c.magnitude()), magnitude::units(d.magnitude()));
    let (n1, n2) = (ua * ub, uc * ud);
    let p = power2::pow2(1074) as int;
    assert(n1 >= 0 && n2 >= 0) by (nonlinear_arith)
        requires
            n1 == ua * ub,
            n2 == uc * ud,
            ua >= 0,
            ub >= 0,
            uc >= 0,
            ud >= 0,
    ;
    assert((-ua) * ub == -(ua * ub) && ua * (-ub) == -(ua * ub) && (-ua) * (-ub) == ua * ub)
        by (nonlinear_arith);
    assert((-uc) * ud == -(uc * ud) && uc * (-ud) == -(uc * ud) && (-uc) * (-ud) == uc * ud)
        by (nonlinear_arith);
    lemma_signs(x);
    lemma_signs(y);
    if n1 <= n2 {
        assert(n1 * p <= n2 * p) by (nonlinear_arith)
            requires
                n1 <= n2,
                p > 0,
        ;
        magnitude::lemma_rounding_monotone(n1, p, x.magnitude(), n2, p, y.magnitude());
        if x.magnitude() < y.magnitude() {
            magnitude::lemma_units_increase(x.magnitude(), y.magnitude());
        }
    }
    if n2 <= n1 {
        assert(n2 * p <= n1 * p) by (nonlinear_arith)
            requires
                n2 <= n1,
                p > 0,
        ;
        magnitude::lemma_rounding_monotone(n2, p, y.magnitude(), n1, p, x.magnitude());
        if y.magnitude() < x.magnitude() {
            magnitude::lemma_units_increase(y.magnitude(), x.magnitude());
        }
    }
    if n1 == 0 && n2 == 0 {
        assert(magnitude::units(0) == 0) by (nonlinear_arith);
        magnitude::lemma_exact_rounds(0, p);
        assert(0 * p == 0);
        magnitude::lemma_rounding_unique(0, p, x.magnitude(), 0);
        magnitude::lemma_rounding_unique(0, p, y.magnitude(), 0);
    }
}

/// Sums keep the order of what is summed.
pub proof fn lemma_sum_monotone(a: Double, b: Double, a2: Double, b2: Double)
    requires
        a.finite(),
        b.finite(),
        a2.finite(),
        b2.finite(),
        a.value() + b.value() <= a2.value() + b2.value(),
    ensures
        !sum(a, b).nan(),
        !sum(a2, b2).nan(),
        sum(a, b).value() <= sum(a2, b2).value(),
{
    let (r, r2) = (sum(a, b), sum(a2, b2));
    lemma_sum(a, b);
    lemma_sum(a2, b2);
    lemma_signs(r);
    lemma_signs(r2);
    let (exact, exact2) = (a.value() + b.value(), a2.value() + b2.value());
    let (m, m2) = (r.magnitude(), r2.magnitude());
    if exact > 0 {
        magnitude::lemma_rounding_monotone(exact, 1, m, exact2, 1, m2);
        if m < m2 {
            magnitude::lemma_units_increase(m, m2);
        }
    } else if exact2 < 0 {
        magnitude::lemma_rounding_monotone(-exact2, 1, m2, -exact, 1, m);
        if m2 < m {
            magnitude::lemma_units_increase(m2, m);
        }
    }
}

/// The sum of finite doubles is a number.
pub proof fn lemma_finite_sum_is_a_number(a: Double, b: Double)
    requires
        a.finite(),
        b.finite(),
    ensures
        !sum(a, b).nan(),
{
    lemma_sum_monotone(a, b, a, b);
}

/// The double with the other sign has the opposite value.
pub proof fn lemma_opposite_value(d: Double)
    ensures
        d.opposite().value() == -d.value(),
        d.opposite().magnitude() == d.magnitude(),
{
}

/// The sign of the value is the sign of the double, zero aside.
proof fn lemma_signs(d: Double)
    ensures
        magnitude::units(d.magnitude()) >= 0,
        magnitude::units(d.magnitude()) == 0 <==> d.magnitude() == 0,
{
    magnitude::lemma_units_nonnegative(d.magnitude());
    assert(magnitude::units(0) == 0) by (nonlinear_arith);
    if d.magnitude() > 0 {
        magnitude::lemma_units_increase(0, d.magnitude());
    }
}

} // verus!
