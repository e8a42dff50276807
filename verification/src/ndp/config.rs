//! The configuration of neighbor discovery.

use crate::net::num::NonZeroU8;
use vstd::prelude::*;

verus! {

/// The greatest number of Router Solicitation messages that a host sends when it looks for routers
/// (RFC 4861, section 10).
pub const MAX_RTR_SOLICITATIONS: u8 = 3;

/// The configuration of neighbor discovery for an interface.
#[derive(Clone, Copy, Debug)]
pub struct NdpConfiguration {
    /// How many router solicitations to send; none if it is not set.
    max_router_solicitations: Option<NonZeroU8>,
}

/// The number of router solicitations that a setting stands for.
pub open spec fn saturated(value: Option<NonZeroU8>) -> u8 {
    match value {
        None => 0,
        Some(v) => if v@ > MAX_RTR_SOLICITATIONS {
            MAX_RTR_SOLICITATIONS
        } else {
            v@
        },
    }
}

impl NdpConfiguration {
    /// How many router solicitations are sent.
    pub closed spec fn limit(self) -> u8 {
        match self.max_router_solicitations {
            None => 0,
            Some(v) => v@,
        }
    }

    /// The number never exceeds the greatest one.
    #[verifier::type_invariant]
    spec fn wf(self) -> bool {
        match self.max_router_solicitations {
            None => true,
            Some(v) => 0 < v@ <= MAX_RTR_SOLICITATIONS,
        }
    }

    /// The number of router solicitations to send; nothing means none.
    pub fn get_max_router_solicitations(&self) -> (result: Option<NonZeroU8>)
        ensures
            result is None <==> self.limit() == 0,
            result is Some ==> result->0@ == self.limit(),
            self.limit() <= MAX_RTR_SOLICITATIONS,
    {
        proof {
            use_type_invariant(self);
        }
        self.max_router_solicitations
    }

    /// Sets the number of router solicitations to send. Nothing means that none are sent; numbers
    /// above the greatest one count as the greatest one.
    pub fn set_max_router_solicitations(&mut self, v: Option<NonZeroU8>)
        ensures
            final(self).limit() == saturated(v),
    {
        let mut v = v;
        if let Some(inner) = v {
            if inner.get() > MAX_RTR_SOLICITATIONS {
                v = NonZeroU8::new(MAX_RTR_SOLICITATIONS);
            }
        }
        self.max_router_solicitations = v;
    }
}

impl Default for NdpConfiguration {
    fn default() -> (result: Self)
        ensures
            result.limit() == MAX_RTR_SOLICITATIONS,
    {
        NdpConfiguration { max_router_solicitations: NonZeroU8::new(MAX_RTR_SOLICITATIONS) }
    }
}

/// The number of router solicitations is the one that is set, up to three; without a setting none are
/// sent.
pub proof fn solicitations_are_limited(value: Option<NonZeroU8>)
    ensures
        value is None ==> saturated(value) == 0,
        value is Some && value->0@ <= 3 ==> saturated(value) == value->0@,
        value is Some && value->0@ > 3 ==> saturated(value) == 3,
        MAX_RTR_SOLICITATIONS == 3,
{
}

} // verus!
