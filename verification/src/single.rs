//! Single precision. A sum, difference, product or quotient of singles that is
//! rounded to a double first and to a single then is correctly rounded, because
//! a double has more than twice the significant bits; so singles are held as
//! the doubles that they are, and rounded after every operation.
use vstd::prelude::*;

use crate::double::Double;

verus! {

/// Bits of a double's significand that a single does not have.
pub const DROPPED: u64 = 0x2000_0000;

/// Half of what the last significant bit of a single is worth.
pub const HALFWAY: u64 = 0x1000_0000;

/// The double with 24 significant bits nearest to `d`, the even one of two: the
/// single nearest to `d`, in the normal range of singles.
pub open spec fn nearest_single(d: Double) -> Double {
    let low = d.bits % DROPPED;
    let base = (d.bits - low) as u64;
    if !d.finite() {
        d
    } else if low > HALFWAY || (low == HALFWAY && (base / DROPPED) % 2 == 1) {
        Double { bits: (base + DROPPED) as u64 }
    } else {
        Double { bits: base }
    }
}

impl Double {
    /// The nearest single, see [`nearest_single`].
    pub fn to_single(&self) -> (s: Double)
        ensures
            s == nearest_single(*self),
    {
        if !self.is_finite() {
            return *self;
        }
        let low: u64 = self.bits % DROPPED;
        let base: u64 = self.bits - low;
        if low > HALFWAY || (low == HALFWAY && (base / DROPPED) % 2 == 1) {
            Double { bits: base + DROPPED }
        } else {
            Double { bits: base }
        }
    }
}

} // verus!
