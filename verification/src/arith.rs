//! Operators on doubles.
use vstd::prelude::*;

use crate::double;
use crate::double::Double;

verus! {

/// The four operations as they are written in contracts.
impl Double {
    #[verifier::inline]
    pub open spec fn spec_add(self, rhs: Double) -> Double {
        double::sum(self, rhs)
    }

    #[verifier::inline]
    pub open spec fn spec_sub(self, rhs: Double) -> Double {
        double::difference(self, rhs)
    }

    #[verifier::inline]
    pub open spec fn spec_mul(self, rhs: Double) -> Double {
        double::product(self, rhs)
    }

    /// The quotient, correctly rounded.
    #[verifier::inline]
    pub open spec fn per(self, rhs: Double) -> Double {
        double::quotient(self, rhs)
    }

    #[verifier::inline]
    pub open spec fn root(self) -> Double {
        double::root(self)
    }

    #[verifier::inline]
    pub open spec fn size(self) -> Double {
        double::absolute(self)
    }
}

impl core::ops::Add for Double {
    type Output = Double;

    fn add(self, rhs: Double) -> Double {
        self.plus(&rhs)
    }
}

impl vstd::std_specs::ops::AddSpecImpl for Double {
    open spec fn obeys_add_spec() -> bool {
        true
    }

    open spec fn add_req(self, rhs: Double) -> bool {
        true
    }

    open spec fn add_spec(self, rhs: Double) -> Double {
        double::sum(self, rhs)
    }
}

impl core::ops::Sub for Double {
    type Output = Double;

    fn sub(self, rhs: Double) -> Double {
        self.minus(&rhs)
    }
}

impl vstd::std_specs::ops::SubSpecImpl for Double {
    open spec fn obeys_sub_spec() -> bool {
        true
    }

    open spec fn sub_req(self, rhs: Double) -> bool {
        true
    }

    open spec fn sub_spec(self, rhs: Double) -> Double {
        double::difference(self, rhs)
    }
}

impl core::ops::Mul for Double {
    type Output = Double;

    fn mul(self, rhs: Double) -> Double {
        self.times(&rhs)
    }
}

impl vstd::std_specs::ops::MulSpecImpl for Double {
    open spec fn obeys_mul_spec() -> bool {
        true
    }

    open spec fn mul_req(self, rhs: Double) -> bool {
        true
    }

    open spec fn mul_spec(self, rhs: Double) -> Double {
        double::product(self, rhs)
    }
}

impl core::ops::Div for Double {
    type Output = Double;

    fn div(self, rhs: Double) -> Double {
        self.over(&rhs)
    }
}

impl vstd::std_specs::ops::DivSpecImpl for Double {
    open spec fn obeys_div_spec() -> bool {
        true
    }

    open spec fn div_req(self, rhs: Double) -> bool {
        true
    }

    open spec fn div_spec(self, rhs: Double) -> Double {
        double::quotient(self, rhs)
    }
}

} // verus!
