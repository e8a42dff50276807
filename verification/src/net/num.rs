//! Numbers that are not zero.

use vstd::prelude::*;

verus! {

/// A byte that is not zero.
#[derive(Clone, Copy, Debug, PartialEq, Eq, Hash, Structural)]
pub struct NonZeroU8 {
    value: u8,
}

impl NonZeroU8 {
    /// The number.
    pub closed spec fn view(&self) -> u8 {
        self.value
    }

    #[verifier::type_invariant]
    spec fn is_not_zero(self) -> bool {
        self.value != 0
    }

    /// Makes the number, unless it is zero.
    pub fn new(value: u8) -> (result: Option<NonZeroU8>)
        ensures
            result is Some <==> value != 0,
            result is Some ==> result->0@ == value,
    {
        if value == 0 {
            None
        } else {
            Some(NonZeroU8 { value })
        }
    }

    /// The number.
    pub fn get(&self) -> (result: u8)
        ensures
            result == self@,
            result != 0,
    {
        proof {
            use_type_invariant(self);
        }
        self.value
    }
}

/// A number is known by its value.
pub broadcast proof fn nonzero_is_its_value(a: NonZeroU8, b: NonZeroU8)
    requires
        #[trigger] a@ == #[trigger] b@,
    ensures
        a == b,
{
}

} // verus!
