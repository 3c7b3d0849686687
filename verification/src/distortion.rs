//! One-parameter division-model radial distortion about a fixed centre:
//! `ideal = centre + (measured - centre) / (1 + k1 r^2)` with
//! `r = |measured - centre| / r0`. Both directions are closed-form.
use vstd::prelude::*;

use crate::double;
use crate::double::Double;
use crate::edge::Point;
use crate::order;

verus! {

/// Least magnitude of the divisor: the bits of 1e-3.
pub const LEAST_DIVISOR: u64 = 0x3f50_624d_d2f1_a9fc;

/// Radius that counts as the centre: the bits of 1e-12.
pub const AT_CENTRE: u64 = 0x3d71_9799_812d_ea11;

/// The bits of 1.0.
pub const ONE: u64 = 0x3ff0_0000_0000_0000;

/// The bits of 2.0.
pub const TWO: u64 = 0x4000_0000_0000_0000;

/// The bits of 4.0.
pub const FOUR: u64 = 0x4010_0000_0000_0000;

/// Division-model distortion. A `k1` of zero is the exact identity (both
/// mappings return the input).
#[derive(Clone, Copy, Debug)]
pub struct Distortion {
    pub k1: Double,
    /// Distortion centre (= principal point, fixed at the frame centre).
    pub cx: Double,
    pub cy: Double,
    /// Radius normalization (half frame diagonal, px): keeps k1 dimensionless.
    pub r0: Double,
}

/// Half of a frame side.
pub open spec fn half(side: int) -> Double {
    double::whole(side).per(Double { bits: TWO })
}

/// Half the diagonal of a frame, at least 1.
pub open spec fn half_diagonal(w: int, h: int) -> Double {
    double::larger((half(w) * half(w) + half(h) * half(h)).root(), Double { bits: ONE })
}

impl Distortion {
    pub fn new(width: usize, height: usize, k1: Double) -> (d: Distortion)
        requires
            width < 0x20_0000_0000_0000,
            height < 0x20_0000_0000_0000,
        ensures
            d.k1 == k1,
            d.cx == half(width as int),
            d.cy == half(height as int),
            d.r0 == half_diagonal(width as int, height as int),
    {
        let two: Double = Double::from_bits(TWO);
        let cx: Double = Double::from_count(width as u64) / two;
        let cy: Double = Double::from_count(height as u64) / two;
        let r0: Double = (cx * cx + cy * cy).sqrt().max(&Double::from_bits(ONE));
        Distortion { k1, cx, cy, r0 }
    }

    /// The pinhole identity for this frame size.
    pub fn none(width: usize, height: usize) -> (d: Distortion)
        requires
            width < 0x20_0000_0000_0000,
            height < 0x20_0000_0000_0000,
        ensures
            d.k1 == (Double { bits: 0 }),
            d.cx == half(width as int),
            d.cy == half(height as int),
            d.r0 == half_diagonal(width as int, height as int),
    {
        Distortion::new(width, height, Double::from_bits(0))
    }

    /// The lens bends nothing.
    pub open spec fn is_identity(self) -> bool {
        self.k1.same(Double { bits: 0 })
    }

    /// What the offset from the centre is divided by. Kept away from zero: a
    /// pathological k1 could make it vanish inside the frame.
    pub open spec fn divisor(self, dx: Double, dy: Double) -> Double {
        let rn2 = (dx * dx + dy * dy).per(self.r0 * self.r0);
        let s = Double { bits: ONE } + self.k1 * rn2;
        let least = Double { bits: LEAST_DIVISOR };
        if s.size().less(least) {
            if s.less(Double { bits: 0 }) {
                least.opposite()
            } else {
                least
            }
        } else {
            s
        }
    }

    /// The ideal pinhole position of a measured point.
    pub open spec fn undistorted(self, p: Point) -> Point {
        let dx = p[0] - self.cx;
        let dy = p[1] - self.cy;
        if self.is_identity() {
            p
        } else {
            [
                self.cx + dx.per(self.divisor(dx, dy)),
                self.cy + dy.per(self.divisor(dx, dy)),
            ]
        }
    }

    /// Measured (distorted) px -> ideal pinhole px.
    pub fn undistort(&self, p: Point) -> (q: Point)
        ensures
            q == self.undistorted(p),
    {
        if self.k1.equals(&Double::from_bits(0)) {
            return p;
        }
        let dx: Double = p[0] - self.cx;
        let dy: Double = p[1] - self.cy;
        let rn2: Double = (dx * dx + dy * dy) / (self.r0 * self.r0);
        let mut s: Double = Double::from_bits(ONE) + self.k1 * rn2;
        let least: Double = Double::from_bits(LEAST_DIVISOR);
        if s.abs().lt(&least) {
            s =
            if s.lt(&Double::from_bits(0)) {
                least.negate()
            } else {
                least
            };
        }
        [self.cx + dx / s, self.cy + dy / s]
    }

    /// Distance of an offset from the centre, in units of the normalizing radius.
    pub open spec fn radius(self, dx: Double, dy: Double) -> Double {
        (dx * dx + dy * dy).root().per(self.r0)
    }

    /// Discriminant of the equation of the measured radius.
    pub open spec fn discriminant(self, ru: Double) -> Double {
        Double { bits: ONE } - Double { bits: FOUR } * self.k1 * ru * ru
    }

    /// What an ideal offset from the centre is multiplied by.
    pub open spec fn stretch(self, dx: Double, dy: Double) -> Double {
        Double { bits: TWO }.per(
            Double { bits: ONE } + self.discriminant(self.radius(dx, dy)).root(),
        )
    }

    /// The measured position of an ideal pinhole point: the stable root of
    /// `k1 ru rd^2 - rd + ru = 0`, in cancellation-free form. The centre, and
    /// what is beyond the model's invertible range, stays where it is.
    pub open spec fn distorted(self, p: Point) -> Point {
        let dx = p[0] - self.cx;
        let dy = p[1] - self.cy;
        let ru = self.radius(dx, dy);
        if self.is_identity() || ru.less(Double { bits: AT_CENTRE }) || self.discriminant(ru).less(
            Double { bits: 0 },
        ) {
            p
        } else {
            [self.cx + dx * self.stretch(dx, dy), self.cy + dy * self.stretch(dx, dy)]
        }
    }

    /// Ideal pinhole px -> measured (distorted) px.
    pub fn distort(&self, p: Point) -> (q: Point)
        ensures
            q == self.distorted(p),
    {
        if self.k1.equals(&Double::from_bits(0)) {
            return p;
        }
        let dx: Double = p[0] - self.cx;
        let dy: Double = p[1] - self.cy;
        let ru: Double = (dx * dx + dy * dy).sqrt() / self.r0;
        if ru.lt(&Double::from_bits(AT_CENTRE)) {
            return p;
        }
        let disc: Double = Double::from_bits(ONE) - Double::from_bits(FOUR) * self.k1 * ru * ru;
        if disc.lt(&Double::from_bits(0)) {
            return p;
        }
        let scale: Double = Double::from_bits(TWO) / (Double::from_bits(ONE) + disc.sqrt());
        [self.cx + dx * scale, self.cy + dy * scale]
    }
}

/// `to` is an offset that points the way `from` does, and is no longer.
pub open spec fn is_pulled_in(to: Double, from: Double) -> bool {
    &&& to.is_negative() == from.is_negative()
    &&& to.magnitude() <= from.magnitude()
}

/// Barrel distortion (a negative k1) pulls points toward the centre: on either axis
/// the measured offset is no longer than the ideal one.
pub proof fn law_barrel_pulls_inward(d: Distortion, p: Point)
    requires
        d.k1.is_negative(),
        d.k1.finite(),
        order::is_amount(d.r0),
        d.r0.finite(),
        d.r0.bits > 0,
        (p[0] - d.cx).finite(),
        (p[1] - d.cy).finite(),
        d.radius(p[0] - d.cx, p[1] - d.cy).finite(),
    ensures
        ({
            let (dx, dy) = (p[0] - d.cx, p[1] - d.cy);
            let s = d.stretch(dx, dy);
            d.distorted(p) == p || {
                &&& d.distorted(p) == [d.cx + dx * s, d.cy + dy * s]
                &&& is_pulled_in(dx * s, dx)
                &&& is_pulled_in(dy * s, dy)
            }
        }),
{
    let (dx, dy) = (p[0] - d.cx, p[1] - d.cy);
    let ru = d.radius(dx, dy);
    let disc = d.discriminant(ru);
    let (one, two, four) = (Double { bits: ONE }, Double { bits: TWO }, Double { bits: FOUR });
    let centre = Double { bits: AT_CENTRE };
    if !(d.is_identity() || ru.less(centre)) {
        order::lemma_square_is_amount(dx);
        order::lemma_square_is_amount(dy);
        order::lemma_sum_grows(dx * dx, dy * dy, dx * dx, dy * dy);
        let r2 = dx * dx + dy * dy;
        order::lemma_root_grows(r2, r2);
        order::lemma_quotient_grows(r2.root(), r2.root(), d.r0);
        order::lemma_amounts_are_ordered(ru, centre);
        let a = four * d.k1;
        order::lemma_scaled_negative(four, d.k1);
        order::lemma_negative_scaled(a, ru);
        order::lemma_negative_scaled(a * ru, ru);
        let t = (a * ru * ru).opposite();
        let zero = Double { bits: 0 };
        order::lemma_plus_zero(one);
        order::lemma_sum_grows(one, zero, one, t);
        assert(disc.bits >= ONE);
        order::lemma_root_grows(one, disc);
        order::lemma_root_of_one();
        order::lemma_one_and_more(disc.root());
        order::lemma_two_over(one + disc.root());
        order::lemma_shrinks(dx, d.stretch(dx, dy));
        order::lemma_shrinks(dy, d.stretch(dx, dy));
    }
}

/// Without distortion both mappings are the identity.
pub proof fn law_no_distortion_is_identity(d: Distortion, p: Point)
    requires
        d.k1.same(Double { bits: 0 }),
    ensures
        d.undistorted(p) == p,
        d.distorted(p) == p,
{
}

} // verus!
