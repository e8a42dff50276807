//! Tests of which packets and timers a device can take.

use fuchsia::ndp::config::NdpConfiguration;
use fuchsia::ndp::context::NdpContext;
use fuchsia::ndp::handler::{
    apply_slaac_update, start_soliciting_routers_with_delay, try_handle_timer,
    try_receive_ndp_packet, try_receive_ndp_packet_with_draw,
};
use fuchsia::ndp::packet::{
    Counter, NdpAction, NdpMessage, NdpOption, NdpPacket, PrefixInformation, RouterAdvertisement,
    INFINITE_LIFETIME,
};
use fuchsia::ndp::state::{AddrConfig, AddressState};
use fuchsia::ndp::timer::{InnerNdpTimerId, NdpTimerId};
use fuchsia::net::addr::{Ipv6Addr, Ipv6SourceAddr};
use fuchsia::net::link::Mac;
use fuchsia::net::time::{Duration, Instant};

const GLOBAL: Ipv6Addr = Ipv6Addr { bits: 0x2001_0db8_0000_0000_0000_0000_0000_0001 };
const LINK_LOCAL: Ipv6Addr = Ipv6Addr { bits: 0xfe80_0000_0000_0000_0000_0000_0000_0001 };
const LOOPBACK: Ipv6Addr = Ipv6Addr { bits: 1 };
const DRAW: Duration = Duration { nanos: 0 };

fn device(is_router: bool, routing_enabled: bool) -> NdpContext<Mac> {
    NdpContext::new(
        0,
        Mac::new([0, 1, 2, 3, 4, 5]),
        [2, 1, 2, 0xff, 0xfe, 3, 4, 5],
        is_router,
        routing_enabled,
        AddressState::Assigned,
        NdpConfiguration::default(),
        Instant { nanos: 0 },
    )
}

fn advertisement(options: Vec<NdpOption>) -> NdpPacket {
    NdpPacket::RouterAdvertisement {
        message: RouterAdvertisement {
            current_hop_limit: 0,
            router_lifetime: 9000,
            reachable_time: 0,
            retransmit_timer: 0,
        },
        options,
    }
}

/// An option that is too short for the address of a link.
fn short_option() -> NdpOption {
    NdpOption::SourceLinkLayerAddress(vec![1, 2])
}

fn prefix(prefix: u128, prefix_length: u8, valid: u32, preferred: u32) -> PrefixInformation {
    PrefixInformation {
        prefix_length,
        on_link_flag: false,
        autonomous_address_configuration_flag: true,
        valid_lifetime: valid,
        preferred_lifetime: preferred,
        prefix: Ipv6Addr { bits: prefix },
    }
}

fn receive(ctx: &mut NdpContext<Mac>, src_ip: Ipv6Addr, packet: NdpPacket) -> bool {
    try_receive_ndp_packet_with_draw(ctx, Ipv6SourceAddr::Unicast(src_ip), &packet, DRAW)
}

#[test]
fn advertisements_from_elsewhere_are_discarded() {
    for routing in [false, true] {
        let mut ctx = device(routing, routing);
        assert!(receive(&mut ctx, GLOBAL, advertisement(vec![short_option()])));
        assert!(ctx.actions.is_empty());
        assert!(ctx.timers.len() == 0);
        assert!(!ctx.state.has_default_router(&GLOBAL));
        assert!(try_receive_ndp_packet(
            &mut ctx,
            Ipv6SourceAddr::Unspecified,
            &advertisement(vec![short_option()])
        ));
        assert!(ctx.actions.is_empty());
    }
}

#[test]
fn routers_count_advertisements_and_discard_them() {
    let mut ctx = device(true, true);
    assert!(receive(&mut ctx, LINK_LOCAL, advertisement(vec![short_option()])));
    assert_eq!(ctx.actions, vec![NdpAction::Count(Counter::RxRouterAdvertisement)]);
    assert!(ctx.timers.len() == 0);
    assert!(!ctx.state.has_default_router(&LINK_LOCAL));
}

#[test]
fn hosts_stop_at_a_short_option() {
    let mut ctx = device(false, false);
    assert!(!receive(&mut ctx, LINK_LOCAL, advertisement(vec![short_option()])));
    assert!(ctx.state.has_default_router(&LINK_LOCAL));
    let mut ctx = device(false, false);
    assert!(receive(
        &mut ctx,
        LINK_LOCAL,
        advertisement(vec![NdpOption::Other, NdpOption::SourceLinkLayerAddress(vec![1; 6])])
    ));
    assert!(ctx.state.has_default_router(&LINK_LOCAL));
}

#[test]
fn solicitations_need_a_source_to_answer() {
    let mut ctx = device(false, false);
    let p = prefix(0x2001_0db8 << 96, 64, INFINITE_LIFETIME, INFINITE_LIFETIME);
    apply_slaac_update(&mut ctx, &p);
    let target_address = ctx.addrs[0].addr_sub.addr;
    let to = |target_address| NdpPacket::NeighborSolicitation { target_address, options: vec![] };
    // The target is no address of the device.
    assert!(receive(&mut ctx, LOOPBACK, to(GLOBAL)));
    assert!(!receive(&mut ctx, LOOPBACK, to(target_address)));
    assert!(receive(&mut ctx, GLOBAL, to(target_address)));
}

#[test]
fn prefixes_that_cannot_give_an_address_are_passed_over() {
    let mut ctx = device(false, false);
    for p in [
        // Multicast, link-local, too long, and host bits set.
        prefix(0xff02 << 112, 64, 100, 50),
        prefix(0xfe80 << 112, 64, 100, 50),
        prefix(0x2001_0db8 << 96, 129, 100, 50),
        prefix(GLOBAL.bits, 64, 100, 50),
    ] {
        assert!(receive(
            &mut ctx,
            LINK_LOCAL,
            advertisement(vec![NdpOption::PrefixInformation(p)])
        ));
        assert!(ctx.addrs.is_empty());
    }
}

#[test]
fn hosts_on_a_routing_device_solicit_routers() {
    // A device routes only where its node is a router.
    let mut ctx = device(false, true);
    start_soliciting_routers_with_delay(&mut ctx, Duration::from_secs(0));
    let timer = NdpTimerId { device_id: 0, inner: InnerNdpTimerId::RouterSolicitationTransmit };
    let before = ctx.actions.len();
    assert!(try_handle_timer(&mut ctx, timer));
    assert!(ctx.actions[before..].iter().any(|action| matches!(
        action,
        NdpAction::Send { message: NdpMessage::RouterSolicitation, .. }
    )));
}

#[test]
fn only_timers_that_run_fire() {
    let mut ctx = device(false, false);
    let solicit = NdpTimerId { device_id: 0, inner: InnerNdpTimerId::RouterSolicitationTransmit };
    assert!(!try_handle_timer(&mut ctx, solicit));
    start_soliciting_routers_with_delay(&mut ctx, Duration::from_secs(0));
    assert!(!try_handle_timer(&mut ctx, NdpTimerId { device_id: 1, ..solicit }));
    // A node that has become a router in the meantime does not solicit.
    ctx.is_router = true;
    ctx.routing_enabled = true;
    assert!(!try_handle_timer(&mut ctx, solicit));
    ctx.routing_enabled = false;
    assert!(try_handle_timer(&mut ctx, solicit));
}

#[test]
fn clocks_run_out() {
    let mut ctx = device(false, false);
    assert!(ctx.is_clock_ok());
    ctx.now = Instant { nanos: u128::MAX };
    assert!(!ctx.is_clock_ok());
    let longest = Duration::from_secs(INFINITE_LIFETIME.into());
    ctx.now = Instant { nanos: u128::MAX - longest.nanos };
    assert!(ctx.is_clock_ok());
}

#[test]
fn advertisements_leave_two_hours() {
    const BITS: u128 = 0x2001_0db8 << 96;
    let until = |secs| Instant { nanos: Duration::from_secs(secs).nanos };
    let valid_until = |ctx: &NdpContext<Mac>| match ctx.addrs[0].config {
        AddrConfig::Slaac { valid_until } => valid_until,
        AddrConfig::Manual => None,
    };
    // However often it is shortened, a long lifetime keeps two hours.
    let mut ctx = device(false, false);
    apply_slaac_update(&mut ctx, &prefix(BITS, 64, 100_000, 50_000));
    for valid in [10_000, 8_000, 1, 5, 0] {
        apply_slaac_update(&mut ctx, &prefix(BITS, 64, valid, 0));
        assert!(valid_until(&ctx).unwrap().nanos >= until(7_200).nanos);
    }
    assert_eq!(valid_until(&ctx), Some(until(7_200)));
    // A short one is kept.
    let mut ctx = device(false, false);
    apply_slaac_update(&mut ctx, &prefix(BITS, 64, 1_000, 1_000));
    for valid in [0, 999, 1, 500] {
        apply_slaac_update(&mut ctx, &prefix(BITS, 64, valid, 0));
        assert_eq!(valid_until(&ctx), Some(until(1_000)));
    }
}

#[test]
fn counters_have_names() {
    assert_eq!(Counter::NeighborSolicitationTimer.name(), "ndp::neighbor_solicitation_timer");
    assert_eq!(Counter::RxRouterAdvertisement.name(), "ndp::rx_router_advertisement");
    assert_eq!(Counter::RxNeighborSolicitation.name(), "ndp::rx_neighbor_solicitation");
    assert_eq!(Counter::RxNeighborAdvertisement.name(), "ndp::rx_neighbor_advertisement");
}
