//! The messages of neighbor discovery.

use crate::net::addr::Ipv6Addr;
use vstd::prelude::*;

verus! {

/// The hop limit of every packet of neighbor discovery.
pub const REQUIRED_NDP_IP_PACKET_HOP_LIMIT: u8 = 255;

/// The smallest MTU that a link may have.
pub const MINIMUM_LINK_MTU: u32 = 1280;

/// A lifetime of this many seconds never ends.
pub const INFINITE_LIFETIME: u32 = 0xffff_ffff;

/// A Prefix Information option.
#[derive(Clone, Copy, Debug, PartialEq, Eq, Structural)]
pub struct PrefixInformation {
    pub prefix_length: u8,
    pub on_link_flag: bool,
    pub autonomous_address_configuration_flag: bool,
    /// In seconds.
    pub valid_lifetime: u32,
    /// In seconds.
    pub preferred_lifetime: u32,
    pub prefix: Ipv6Addr,
}

/// An option of a message.
#[derive(Debug)]
pub enum NdpOption {
    SourceLinkLayerAddress(Vec<u8>),
    TargetLinkLayerAddress(Vec<u8>),
    Mtu(u32),
    PrefixInformation(PrefixInformation),
    /// An option that neighbor discovery does not use.
    Other,
}

/// A Router Advertisement. Zero stands for a value that is not specified.
#[derive(Clone, Copy, Debug, PartialEq, Eq, Structural)]
pub struct RouterAdvertisement {
    pub current_hop_limit: u8,
    /// In seconds.
    pub router_lifetime: u16,
    /// In milliseconds.
    pub reachable_time: u32,
    /// In milliseconds.
    pub retransmit_timer: u32,
}

/// A Neighbor Advertisement.
#[derive(Clone, Copy, Debug, PartialEq, Eq, Structural)]
pub struct NeighborAdvertisement {
    pub router_flag: bool,
    pub solicited_flag: bool,
    pub override_flag: bool,
    pub target_address: Ipv6Addr,
}

/// A message that was received, with its options.
#[derive(Debug)]
#[allow(inconsistent_fields)]
pub enum NdpPacket {
    RouterSolicitation,
    RouterAdvertisement { message: RouterAdvertisement, options: Vec<NdpOption> },
    NeighborSolicitation { target_address: Ipv6Addr, options: Vec<NdpOption> },
    NeighborAdvertisement { message: NeighborAdvertisement, options: Vec<NdpOption> },
    Redirect,
}

/// A message to send.
#[derive(Clone, Copy, Debug, PartialEq, Eq, Structural)]
pub enum NdpMessage {
    RouterSolicitation,
    NeighborSolicitation { target_address: Ipv6Addr },
    NeighborAdvertisement(NeighborAdvertisement),
}

/// The option of a message to send.
#[derive(Clone, Copy, Debug, PartialEq, Eq)]
pub enum LinkOption<H> {
    SourceLinkLayerAddress(H),
    TargetLinkLayerAddress(H),
}

/// An event that is counted.
#[derive(Clone, Copy, Debug, PartialEq, Eq, Structural)]
pub enum Counter {
    NeighborSolicitationTimer,
    RxRouterAdvertisement,
    RxNeighborSolicitation,
    RxNeighborAdvertisement,
}

impl Counter {
    /// The name under which the event is counted.
    pub fn name(&self) -> (result: &'static str)
        ensures
            result@ == match *self {
                Counter::NeighborSolicitationTimer => "ndp::neighbor_solicitation_timer"@,
                Counter::RxRouterAdvertisement => "ndp::rx_router_advertisement"@,
                Counter::RxNeighborSolicitation => "ndp::rx_neighbor_solicitation"@,
                Counter::RxNeighborAdvertisement => "ndp::rx_neighbor_advertisement"@,
            },
    {
        match self {
            Counter::NeighborSolicitationTimer => "ndp::neighbor_solicitation_timer",
            Counter::RxRouterAdvertisement => "ndp::rx_router_advertisement",
            Counter::RxNeighborSolicitation => "ndp::rx_neighbor_solicitation",
            Counter::RxNeighborAdvertisement => "ndp::rx_neighbor_advertisement",
        }
    }
}

/// What the device layer has to do.
#[derive(Clone, Copy, Debug, PartialEq, Eq)]
pub enum NdpAction<H> {
    /// Send a packet.
    Send {
        src_ip: Ipv6Addr,
        dst_ip: Ipv6Addr,
        hop_limit: u8,
        message: NdpMessage,
        option: Option<LinkOption<H>>,
    },
    /// Send what waits for the neighbor's link address.
    AddressResolved { address: Ipv6Addr, link_address: H },
    /// Drop what waits for the neighbor's link address.
    AddressResolutionFailed { address: Ipv6Addr },
    /// Another node uses a tentative address of the device.
    DuplicateAddressDetected { addr: Ipv6Addr },
    /// Use no greater MTU on the link.
    SetMtu { mtu: u32 },
    /// The device has a new address.
    AddressAdded { addr: Ipv6Addr, prefix: u8 },
    /// The device has an address no more.
    AddressRemoved { addr: Ipv6Addr },
    /// Count an event.
    Count(Counter),
}

} // verus!
