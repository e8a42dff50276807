//! The timers of neighbor discovery.

use crate::net::addr::{Ipv6Addr, Subnet};
use crate::net::table::Id;
use vstd::prelude::*;

verus! {

/// A timer of a device.
#[derive(Clone, Copy, Debug, PartialEq, Eq, Hash, Structural)]
pub struct NdpTimerId {
    pub device_id: u64,
    pub inner: InnerNdpTimerId,
}

/// The kinds of timers.
#[derive(Clone, Copy, Debug, PartialEq, Eq, Hash, Structural)]
pub enum InnerNdpTimerId {
    /// Time to solicit a neighbor again.
    LinkAddressResolution { neighbor_addr: Ipv6Addr },
    /// Time to solicit routers.
    RouterSolicitationTransmit,
    /// A router is no longer a default router.
    RouterInvalidation { ip: Ipv6Addr },
    /// A prefix is no longer on the link.
    PrefixInvalidation { subnet: Subnet },
    /// An autoconfigured address is no longer preferred.
    DeprecateSlaacAddress { addr: Ipv6Addr },
    /// An autoconfigured address is no longer valid.
    InvalidateSlaacAddress { addr: Ipv6Addr },
}

impl Id for NdpTimerId {
    fn same(&self, other: &Self) -> (result: bool) {
        *self == *other
    }
}

impl Id for Ipv6Addr {
    fn same(&self, other: &Self) -> (result: bool) {
        *self == *other
    }
}

impl Id for Subnet {
    fn same(&self, other: &Self) -> (result: bool) {
        *self == *other
    }
}

impl NdpTimerId {
    /// Makes the timer that solicits a neighbor.
    pub fn new_link_address_resolution(device_id: u64, neighbor_addr: Ipv6Addr) -> (result: Self)
        ensures
            result == (NdpTimerId {
                device_id,
                inner: InnerNdpTimerId::LinkAddressResolution { neighbor_addr },
            }),
    {
        NdpTimerId { device_id, inner: InnerNdpTimerId::LinkAddressResolution { neighbor_addr } }
    }

    /// Makes the timer that solicits routers.
    pub fn new_router_solicitation(device_id: u64) -> (result: Self)
        ensures
            result == (NdpTimerId {
                device_id,
                inner: InnerNdpTimerId::RouterSolicitationTransmit,
            }),
    {
        NdpTimerId { device_id, inner: InnerNdpTimerId::RouterSolicitationTransmit }
    }

    /// Makes the timer that invalidates a router.
    pub fn new_router_invalidation(device_id: u64, ip: Ipv6Addr) -> (result: Self)
        ensures
            result == (NdpTimerId {
                device_id,
                inner: InnerNdpTimerId::RouterInvalidation { ip },
            }),
    {
        NdpTimerId { device_id, inner: InnerNdpTimerId::RouterInvalidation { ip } }
    }

    /// Makes the timer that invalidates a prefix.
    pub fn new_prefix_invalidation(device_id: u64, subnet: Subnet) -> (result: Self)
        ensures
            result == (NdpTimerId {
                device_id,
                inner: InnerNdpTimerId::PrefixInvalidation { subnet },
            }),
    {
        NdpTimerId { device_id, inner: InnerNdpTimerId::PrefixInvalidation { subnet } }
    }

    /// Makes the timer that deprecates an address.
    pub fn new_deprecate_slaac_address(device_id: u64, addr: Ipv6Addr) -> (result: Self)
        ensures
            result == (NdpTimerId {
                device_id,
                inner: InnerNdpTimerId::DeprecateSlaacAddress { addr },
            }),
    {
        NdpTimerId { device_id, inner: InnerNdpTimerId::DeprecateSlaacAddress { addr } }
    }

    /// Makes the timer that invalidates an address.
    pub fn new_invalidate_slaac_address(device_id: u64, addr: Ipv6Addr) -> (result: Self)
        ensures
            result == (NdpTimerId {
                device_id,
                inner: InnerNdpTimerId::InvalidateSlaacAddress { addr },
            }),
    {
        NdpTimerId { device_id, inner: InnerNdpTimerId::InvalidateSlaacAddress { addr } }
    }

    /// The device that the timer belongs to.
    pub fn get_device_id(&self) -> (result: u64)
        ensures
            result == self.device_id,
    {
        self.device_id
    }
}

} // verus!
