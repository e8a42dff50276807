//! Tests of neighbor discovery, on devices that share a link.

use fuchsia::ndp::config::{NdpConfiguration, MAX_RTR_SOLICITATIONS};
use fuchsia::ndp::context::NdpContext;
use fuchsia::ndp::handler::{
    deinitialize, get_source_link_layer_option, get_target_link_layer_option, handle_timer,
    insert_neighbor, lookup, receive_ndp_packet, receive_ndp_packet_with_draw, retrans_timer,
    set_ndp_configuration, start_soliciting_routers, start_soliciting_routers_with_delay,
    stop_soliciting_routers,
};
use fuchsia::ndp::model::{
    MAX_MULTICAST_SOLICIT, MAX_RTR_SOLICITATION_DELAY, RTR_SOLICITATION_INTERVAL,
};
use fuchsia::ndp::packet::{
    Counter, LinkOption, NdpAction, NdpMessage, NdpOption, NdpPacket, NeighborAdvertisement,
    PrefixInformation, RouterAdvertisement, INFINITE_LIFETIME, MINIMUM_LINK_MTU,
    REQUIRED_NDP_IP_PACKET_HOP_LIMIT,
};
use fuchsia::ndp::state::{
    AddrConfig, AddressState, Ipv6AddressEntry, NdpState, NeighborEntryState, NeighborState,
};
use fuchsia::ndp::timer::{InnerNdpTimerId, NdpTimerId};
use fuchsia::net::addr::{
    AddrSubnet, Ipv6Addr, Ipv6SourceAddr, Subnet, ALL_NODES_LINK_LOCAL_MULTICAST_ADDRESS,
    ALL_ROUTERS_LINK_LOCAL_MULTICAST_ADDRESS,
};
use fuchsia::net::link::{LinkAddress, Mac};
use fuchsia::net::num::NonZeroU8;
use fuchsia::net::time::{Duration, Instant};

// -- Addresses --

const LOCAL_MAC: [u8; 6] = [0, 1, 2, 3, 4, 5];
const REMOTE_MAC: [u8; 6] = [6, 7, 8, 9, 10, 11];
const PREFIX: [u8; 16] = [1, 2, 3, 4, 5, 6, 7, 8, 0, 0, 0, 0, 0, 0, 0, 0];
const DEVICE: u64 = 0;

fn ip(bytes: [u8; 16]) -> Ipv6Addr {
    Ipv6Addr::from_bytes(bytes)
}

fn local_ip() -> Ipv6Addr {
    ip([0, 0, 0, 0, 0, 0, 0, 0, 0, 0, 0, 0, 192, 168, 0, 1])
}

fn remote_ip() -> Ipv6Addr {
    ip([0, 0, 0, 0, 0, 0, 0, 0, 0, 0, 0, 0, 192, 168, 0, 2])
}

fn eui64(mac: [u8; 6]) -> [u8; 8] {
    [mac[0] ^ 2, mac[1], mac[2], 0xff, 0xfe, mac[3], mac[4], mac[5]]
}

fn with_iid(prefix: [u8; 16], mac: [u8; 6]) -> Ipv6Addr {
    let mut bytes = prefix;
    bytes[8..].copy_from_slice(&eui64(mac));
    ip(bytes)
}

fn link_local(mac: [u8; 6]) -> Ipv6Addr {
    with_iid([0xfe, 0x80, 0, 0, 0, 0, 0, 0, 0, 0, 0, 0, 0, 0, 0, 0], mac)
}

fn slaac_addr() -> Ipv6Addr {
    with_iid(PREFIX, LOCAL_MAC)
}

fn secs(n: u64) -> Duration {
    Duration::from_secs(n)
}

fn millis(n: u64) -> Duration {
    Duration::from_millis(n)
}

// -- A device layer --

#[derive(Clone, Copy, Debug, PartialEq)]
enum Timer {
    Ndp(NdpTimerId),
    Dad(Ipv6Addr),
}

#[derive(Clone, Copy, Debug, PartialEq)]
enum Frame {
    Ndp {
        src_mac: Mac,
        src_ip: Ipv6Addr,
        dst_ip: Ipv6Addr,
        message: NdpMessage,
        option: Option<LinkOption<Mac>>,
    },
    Ping { dst_mac: Mac },
}

struct Node {
    ctx: NdpContext<Mac>,
    frames: Vec<Frame>,
    counts: Vec<Counter>,
    mtu: u32,
    multicast_groups: Vec<Ipv6Addr>,
    dad_timers: Vec<(Instant, Ipv6Addr)>,
    waiting_pings: Vec<Ipv6Addr>,
    failed: Vec<Ipv6Addr>,
    pings: usize,
}

struct Settings {
    mac: [u8; 6],
    forward: bool,
    dad: bool,
    solicitations: Option<u8>,
    mtu: u32,
}

fn host(mac: [u8; 6]) -> Settings {
    Settings { mac, forward: false, dad: false, solicitations: None, mtu: MINIMUM_LINK_MTU }
}

const TENTATIVE: AddressState = AddressState::Tentative { dad_transmits_remaining: None };

impl Node {
    /// Brings up a device with its link-local address.
    fn new(settings: Settings) -> Node {
        let mut config = NdpConfiguration::default();
        config.set_max_router_solicitations(settings.solicitations.and_then(NonZeroU8::new));
        let initial_state = if settings.dad { TENTATIVE } else { AddressState::Assigned };
        let ctx = NdpContext::new(
            DEVICE,
            Mac::new(settings.mac),
            eui64(settings.mac),
            settings.forward,
            false,
            initial_state,
            config,
            Instant { nanos: 0 },
        );
        let mut node = Node {
            ctx,
            frames: vec![],
            counts: vec![],
            mtu: settings.mtu,
            multicast_groups: vec![],
            dad_timers: vec![],
            waiting_pings: vec![],
            failed: vec![],
            pings: 0,
        };
        node.add_addr(link_local(settings.mac), 64);
        start_soliciting_routers(&mut node.ctx);
        node
    }

    fn enable_dad(&mut self) {
        self.ctx.initial_state = TENTATIVE;
    }

    fn add_addr(&mut self, addr: Ipv6Addr, prefix: u8) {
        assert_eq!(self.ctx.find_addr(&addr), None);
        let addr_sub = AddrSubnet::new(addr, prefix).unwrap();
        let state = self.ctx.initial_state;
        self.ctx.addrs.push(Ipv6AddressEntry { addr_sub, state, config: AddrConfig::Manual });
        self.address_added(addr);
    }

    fn address_added(&mut self, addr: Ipv6Addr) {
        let group = addr.to_solicited_node_address();
        self.multicast_groups.push(group);
        // The address may be gone again before the device layer hears of it.
        let entry = self.ctx.find_addr(&addr).map(|i| self.ctx.addrs[i]);
        if entry.map_or(false, |e| e.state.is_tentative()) {
            self.frames.push(Frame::Ndp {
                src_mac: self.ctx.link_addr,
                src_ip: Ipv6Addr { bits: 0 },
                dst_ip: group,
                message: NdpMessage::NeighborSolicitation { target_address: addr },
                option: None,
            });
            self.dad_timers.push((self.ctx.now.add_duration(retrans_timer(&self.ctx)), addr));
        }
    }

    fn address_removed(&mut self, addr: Ipv6Addr) {
        let group = addr.to_solicited_node_address();
        let i = self.multicast_groups.iter().position(|g| *g == group).unwrap();
        self.multicast_groups.remove(i);
        self.dad_timers.retain(|(_, a)| *a != addr);
    }

    /// Does what neighbor discovery asked for.
    fn act(&mut self) {
        let actions: Vec<NdpAction<Mac>> = self.ctx.actions.drain(..).collect();
        for action in actions {
            match action {
                NdpAction::Send { src_ip, dst_ip, hop_limit, message, option } => {
                    assert_eq!(hop_limit, REQUIRED_NDP_IP_PACKET_HOP_LIMIT);
                    let src_mac = self.ctx.link_addr;
                    self.frames.push(Frame::Ndp { src_mac, src_ip, dst_ip, message, option });
                }
                NdpAction::AddressResolved { address, link_address } => {
                    let waiting = self.waiting_pings.len();
                    self.waiting_pings.retain(|a| *a != address);
                    for _ in self.waiting_pings.len()..waiting {
                        self.frames.push(Frame::Ping { dst_mac: link_address });
                    }
                }
                NdpAction::AddressResolutionFailed { address } => {
                    self.waiting_pings.retain(|a| *a != address);
                    self.failed.push(address);
                }
                NdpAction::DuplicateAddressDetected { addr } => {
                    let i = self.ctx.find_addr(&addr).unwrap();
                    self.ctx.addrs.remove(i);
                    self.address_removed(addr);
                }
                NdpAction::SetMtu { mtu } => self.mtu = self.mtu.min(mtu),
                NdpAction::AddressAdded { addr, prefix: _ } => self.address_added(addr),
                NdpAction::AddressRemoved { addr } => self.address_removed(addr),
                NdpAction::Count(counter) => self.counts.push(counter),
            }
        }
    }

    fn count(&self, counter: Counter) -> usize {
        self.counts.iter().filter(|c| **c == counter).count()
    }

    fn receive(&mut self, src_ip: Ipv6Addr, packet: NdpPacket) {
        let src_ip = if src_ip.bits == 0 {
            Ipv6SourceAddr::Unspecified
        } else {
            Ipv6SourceAddr::Unicast(src_ip)
        };
        receive_ndp_packet(&mut self.ctx, src_ip, &packet);
        self.act();
    }

    fn ping(&mut self, dst_ip: Ipv6Addr) {
        match lookup(&mut self.ctx, dst_ip) {
            Some(dst_mac) => self.frames.push(Frame::Ping { dst_mac }),
            None => self.waiting_pings.push(dst_ip),
        }
        self.act();
    }

    fn timers(&self) -> Vec<(Instant, Timer)> {
        let mut timers = vec![];
        for i in 0..self.ctx.timers.len() {
            let (id, at) = self.ctx.timers.at(i);
            timers.push((at, Timer::Ndp(id)));
        }
        for (at, addr) in &self.dad_timers {
            timers.push((*at, Timer::Dad(*addr)));
        }
        timers.sort_by_key(|(at, _)| at.nanos);
        timers
    }

    fn timer(&self, id: NdpTimerId) -> Option<Instant> {
        self.ctx.timers.get(&id)
    }

    fn trigger_next_timer(&mut self) -> Option<Timer> {
        let (at, timer) = *self.timers().first()?;
        self.ctx.now = at;
        match timer {
            Timer::Ndp(id) => handle_timer(&mut self.ctx, id),
            Timer::Dad(addr) => {
                self.dad_timers.retain(|(_, a)| *a != addr);
                let i = self.ctx.find_addr(&addr).unwrap();
                self.ctx.addrs[i].state = AddressState::Assigned;
            }
        }
        self.act();
        Some(timer)
    }

    fn run_for(&mut self, duration: Duration) -> Vec<Timer> {
        let end = self.ctx.now.add_duration(duration);
        let mut fired = vec![];
        while self.timers().first().map_or(false, |(at, _)| at.nanos <= end.nanos) {
            fired.push(self.trigger_next_timer().unwrap());
        }
        self.ctx.now = end;
        fired
    }

    fn set_routing_enabled(&mut self, enabled: bool) {
        if !self.ctx.is_router {
            self.ctx.routing_enabled = enabled;
        } else if enabled {
            stop_soliciting_routers(&mut self.ctx);
            self.ctx.routing_enabled = true;
        } else {
            self.ctx.routing_enabled = false;
            start_soliciting_routers(&mut self.ctx);
        }
        self.act();
    }

    fn global_addrs(&self) -> Vec<Ipv6AddressEntry> {
        self.ctx.addrs.iter().filter(|e| e.addr_sub.addr.is_global()).copied().collect()
    }

    fn neighbor(&self, addr: Ipv6Addr) -> Option<NeighborState<Mac>> {
        self.ctx.state.neighbors.get_neighbor_state(&addr)
    }
}

fn option_bytes(option: Option<LinkOption<Mac>>) -> Vec<NdpOption> {
    match option {
        Some(LinkOption::SourceLinkLayerAddress(mac)) => {
            vec![NdpOption::SourceLinkLayerAddress(mac.bytes())]
        }
        Some(LinkOption::TargetLinkLayerAddress(mac)) => {
            vec![NdpOption::TargetLinkLayerAddress(mac.bytes())]
        }
        None => vec![],
    }
}

/// Delivers the frames of each node to the other.
fn step(a: &mut Node, b: &mut Node) {
    let from_a: Vec<Frame> = a.frames.drain(..).collect();
    let from_b: Vec<Frame> = b.frames.drain(..).collect();
    for frame in from_a {
        deliver(frame, b);
    }
    for frame in from_b {
        deliver(frame, a);
    }
}

fn deliver(frame: Frame, node: &mut Node) {
    match frame {
        Frame::Ndp { src_mac: _, src_ip, dst_ip: _, message, option } => {
            let options = option_bytes(option);
            let packet = match message {
                NdpMessage::RouterSolicitation => NdpPacket::RouterSolicitation,
                NdpMessage::NeighborSolicitation { target_address } => {
                    NdpPacket::NeighborSolicitation { target_address, options }
                }
                NdpMessage::NeighborAdvertisement(message) => {
                    NdpPacket::NeighborAdvertisement { message, options }
                }
            };
            node.receive(src_ip, packet);
        }
        Frame::Ping { dst_mac } => {
            if dst_mac == node.ctx.link_addr {
                node.pings += 1;
            }
        }
    }
}

// -- Messages --

fn router_advertisement_message(
    current_hop_limit: u8,
    router_lifetime: u16,
    reachable_time: u32,
    retransmit_timer: u32,
) -> NdpPacket {
    router_advertisement_with(
        current_hop_limit,
        router_lifetime,
        reachable_time,
        retransmit_timer,
        vec![],
    )
}

fn router_advertisement_with(
    current_hop_limit: u8,
    router_lifetime: u16,
    reachable_time: u32,
    retransmit_timer: u32,
    options: Vec<NdpOption>,
) -> NdpPacket {
    NdpPacket::RouterAdvertisement {
        message: RouterAdvertisement {
            current_hop_limit,
            router_lifetime,
            reachable_time,
            retransmit_timer,
        },
        options,
    }
}

fn neighbor_advertisement_message(
    target_address: Ipv6Addr,
    router_flag: bool,
    solicited_flag: bool,
    override_flag: bool,
    mac: Option<Mac>,
) -> NdpPacket {
    NdpPacket::NeighborAdvertisement {
        message: NeighborAdvertisement {
            router_flag,
            solicited_flag,
            override_flag,
            target_address,
        },
        options: option_bytes(mac.map(LinkOption::TargetLinkLayerAddress)),
    }
}

fn prefix_option(
    prefix: Ipv6Addr,
    prefix_length: u8,
    on_link_flag: bool,
    autonomous_address_configuration_flag: bool,
    valid_lifetime: u32,
    preferred_lifetime: u32,
) -> NdpOption {
    NdpOption::PrefixInformation(PrefixInformation {
        prefix_length,
        on_link_flag,
        autonomous_address_configuration_flag,
        valid_lifetime,
        preferred_lifetime,
        prefix,
    })
}

fn slaac_packet(
    prefix: Ipv6Addr,
    prefix_length: u8,
    on_link_flag: bool,
    autonomous_address_configuration_flag: bool,
    valid_lifetime: u32,
    preferred_lifetime: u32,
) -> NdpPacket {
    let option = prefix_option(
        prefix,
        prefix_length,
        on_link_flag,
        autonomous_address_configuration_flag,
        valid_lifetime,
        preferred_lifetime,
    );
    router_advertisement_with(0, 0, 0, 0, vec![option])
}

fn is_slaac(entry: &Ipv6AddressEntry) -> bool {
    matches!(entry.config, AddrConfig::Slaac { .. })
}

fn resolution(addr: Ipv6Addr) -> NdpTimerId {
    NdpTimerId::new_link_address_resolution(DEVICE, addr)
}

fn deprecation(addr: Ipv6Addr) -> NdpTimerId {
    NdpTimerId::new_deprecate_slaac_address(DEVICE, addr)
}

fn invalidation(addr: Ipv6Addr) -> NdpTimerId {
    NdpTimerId::new_invalidate_slaac_address(DEVICE, addr)
}

// -- Neighbors --

#[test]
fn test_send_neighbor_solicitation_on_cache_miss() {
    let mut node = Node::new(host(LOCAL_MAC));
    node.add_addr(local_ip(), 128);

    assert_eq!(lookup(&mut node.ctx, remote_ip()), None);
    node.act();

    // Check that we send the original neighbor solicitation, then resend a
    // few times if we don't receive a response.
    for packet_num in 0..usize::from(MAX_MULTICAST_SOLICIT) {
        assert_eq!(node.frames.len(), packet_num + 1);
        assert_eq!(node.trigger_next_timer(), Some(Timer::Ndp(resolution(remote_ip()))));
    }
    // Check that we hit the timeout after MAX_MULTICAST_SOLICIT.
    assert_eq!(node.count(Counter::NeighborSolicitationTimer), 1, "timeout counter at zero");

    // The neighbor is forgotten, and whoever waited for it hears of it.
    assert_eq!(node.neighbor(remote_ip()), None);
    assert_eq!(node.failed, vec![remote_ip()]);
    assert_eq!(node.trigger_next_timer(), None);
}

#[test]
fn test_address_resolution() {
    let mut local = Node::new(host(LOCAL_MAC));
    let mut remote = Node::new(host(REMOTE_MAC));
    local.add_addr(local_ip(), 128);
    remote.add_addr(remote_ip(), 128);
    assert_eq!(local.frames, vec![]);
    assert_eq!(remote.frames, vec![]);

    // Let's try to ping the remote device from the local device.
    local.ping(remote_ip());
    // This should've triggered a neighbor solicitation to come out of
    // local.
    assert_eq!(local.frames.len(), 1);
    // A timer should've been started.
    assert_eq!(local.timers().len(), 1);

    step(&mut local, &mut remote);
    // Neighbor entry for remote should be marked as Incomplete.
    assert_eq!(
        local.neighbor(remote_ip()).unwrap().state,
        NeighborEntryState::Incomplete { transmit_counter: 1 }
    );
    assert_eq!(remote.count(Counter::RxNeighborSolicitation), 1, "remote received solicitation");
    assert_eq!(remote.frames.len(), 1);

    // Forward advertisement response back to local.
    step(&mut local, &mut remote);
    assert_eq!(local.count(Counter::RxNeighborAdvertisement), 1, "local received advertisement");

    // At the end of the exchange, both sides should have each other in
    // their NDP tables.
    let local_neighbor = local.neighbor(remote_ip()).unwrap();
    assert_eq!(local_neighbor.link_address.unwrap(), Mac::new(REMOTE_MAC));
    // Remote must be reachable from local since it responded with an NA
    // message with the solicited flag set.
    assert_eq!(local_neighbor.state, NeighborEntryState::Reachable);

    let remote_neighbor = remote.neighbor(local_ip()).unwrap();
    assert_eq!(remote_neighbor.link_address.unwrap(), Mac::new(LOCAL_MAC));
    // Local must be marked as stale because remote got an NS from it but
    // has not itself sent any packets to it and confirmed that local
    // actually received it.
    assert_eq!(remote_neighbor.state, NeighborEntryState::Stale);

    // The local timer should've been unscheduled.
    assert_eq!(local.timers(), vec![]);

    // Upon link layer resolution, the original ping request should've been
    // sent out.
    assert_eq!(local.frames.len(), 1);
    step(&mut local, &mut remote);
    assert_eq!(remote.pings, 1);
}

#[test]
fn test_deinitialize_cancels_timers() {
    // Test that associated timers are cancelled when the NDP device
    // is deinitialized.
    let mut node = Node::new(host(LOCAL_MAC));
    node.add_addr(local_ip(), 128);
    assert_eq!(lookup(&mut node.ctx, remote_ip()), None);

    // This should have scheduled a timer
    assert_eq!(node.timers().len(), 1);

    // Deinitializing a different ID should not impact the current timer
    deinitialize(&mut node.ctx, DEVICE + 1);
    assert_eq!(node.timers().len(), 1);

    // Deinitializing the correct ID should cancel the timer.
    deinitialize(&mut node.ctx, DEVICE);
    assert_eq!(node.timers(), vec![]);
}

#[test]
fn test_receiving_neighbor_advertisements() {
    fn test_receiving_na_from_known_neighbor(
        node: &mut Node,
        src_ip: Ipv6Addr,
        router_flag: bool,
        solicited_flag: bool,
        override_flag: bool,
        mac: Option<Mac>,
        expected_state: NeighborEntryState,
        expected_router: bool,
        expected_link_addr: Option<Mac>,
    ) {
        node.receive(
            src_ip,
            neighbor_advertisement_message(
                src_ip,
                router_flag,
                solicited_flag,
                override_flag,
                mac,
            ),
        );
        let neighbor_state = node.neighbor(src_ip).unwrap();
        assert_eq!(neighbor_state.state, expected_state);
        assert_eq!(neighbor_state.is_router, expected_router);
        assert_eq!(neighbor_state.link_address, expected_link_addr);
    }

    let mut node = Node::new(host(LOCAL_MAC));
    let neighbor_mac = Mac::new(REMOTE_MAC);
    let neighbor_ip = link_local(REMOTE_MAC);

    // Should not know about the neighbor yet.
    assert_eq!(node.neighbor(neighbor_ip), None);

    // Receiving unsolicited NA from a neighbor we don't care about yet
    // should do nothing.
    node.receive(
        neighbor_ip,
        neighbor_advertisement_message(neighbor_ip, false, false, false, None),
    );
    // We still do not know about the neighbor since the NA was unsolicited
    // and we never were interested in the neighbor yet.
    assert_eq!(node.neighbor(neighbor_ip), None);

    // Receiving solicited NA from a neighbor we don't care about yet should
    // do nothing (should never happen).
    node.receive(
        neighbor_ip,
        neighbor_advertisement_message(neighbor_ip, false, true, false, None),
    );
    assert_eq!(node.neighbor(neighbor_ip), None);

    // Receiving solicited NA from a neighbor we are trying to resolve, but
    // no target link addr.
    //
    // Should do nothing (still INCOMPLETE).

    // Create incomplete neighbor entry.
    node.ctx.state.neighbors.add_incomplete_neighbor_state(neighbor_ip);
    node.ctx.schedule_timer(
        secs(1),
        InnerNdpTimerId::LinkAddressResolution { neighbor_addr: neighbor_ip },
    );

    test_receiving_na_from_known_neighbor(
        &mut node,
        neighbor_ip,
        false,
        true,
        false,
        None,
        NeighborEntryState::Incomplete { transmit_counter: 1 },
        false,
        None,
    );

    // Receiving solicited NA from a neighbor we are resolving, but with
    // target link addr.
    //
    // Should update link layer address and set state to REACHABLE.
    test_receiving_na_from_known_neighbor(
        &mut node,
        neighbor_ip,
        false,
        true,
        false,
        Some(neighbor_mac),
        NeighborEntryState::Reachable,
        false,
        Some(neighbor_mac),
    );

    // Receive unsolicited NA from a neighbor with router flag updated (no
    // target link addr).
    //
    // Should update is_router to true.
    test_receiving_na_from_known_neighbor(
        &mut node,
        neighbor_ip,
        true,
        false,
        false,
        None,
        NeighborEntryState::Reachable,
        true,
        Some(neighbor_mac),
    );

    // Receive unsolicited NA from a neighbor without router flag set and
    // same target link addr.
    //
    // Should update is_router, state should be unchanged.
    test_receiving_na_from_known_neighbor(
        &mut node,
        neighbor_ip,
        false,
        false,
        false,
        Some(neighbor_mac),
        NeighborEntryState::Reachable,
        false,
        Some(neighbor_mac),
    );

    // Receive unsolicited NA from a neighbor with new target link addr.
    //
    // Should NOT update link layer addr, but set state to STALE.
    let new_mac = Mac::new([99, 98, 97, 96, 95, 94]);
    test_receiving_na_from_known_neighbor(
        &mut node,
        neighbor_ip,
        false,
        false,
        false,
        Some(new_mac),
        NeighborEntryState::Stale,
        false,
        Some(neighbor_mac),
    );

    // Receive unsolicited NA from a neighbor with new target link addr and
    // override set.
    //
    // Should update link layer addr and set state to STALE.
    test_receiving_na_from_known_neighbor(
        &mut node,
        neighbor_ip,
        false,
        false,
        true,
        Some(new_mac),
        NeighborEntryState::Stale,
        false,
        Some(new_mac),
    );

    // Receive solicited NA from a neighbor with the same link layer addr.
    //
    // Should not update link layer addr, but set state to REACHABLE.
    test_receiving_na_from_known_neighbor(
        &mut node,
        neighbor_ip,
        false,
        true,
        false,
        Some(new_mac),
        NeighborEntryState::Reachable,
        false,
        Some(new_mac),
    );

    // Receive unsolicited NA from a neighbor with new target link addr and
    // override set.
    //
    // Should update link layer addr, and set state to Stale.
    test_receiving_na_from_known_neighbor(
        &mut node,
        neighbor_ip,
        false,
        false,
        true,
        Some(neighbor_mac),
        NeighborEntryState::Stale,
        false,
        Some(neighbor_mac),
    );

    // Receive solicited NA from a neighbor with new target link addr and
    // override set.
    //
    // Should set state to Reachable.
    test_receiving_na_from_known_neighbor(
        &mut node,
        neighbor_ip,
        false,
        true,
        true,
        Some(neighbor_mac),
        NeighborEntryState::Reachable,
        false,
        Some(neighbor_mac),
    );

    // Receive unsolicited NA from a neighbor with no target link addr and
    // override set.
    //
    // Should do nothing.
    test_receiving_na_from_known_neighbor(
        &mut node,
        neighbor_ip,
        false,
        false,
        true,
        None,
        NeighborEntryState::Reachable,
        false,
        Some(neighbor_mac),
    );
}

// -- Duplicate addresses --

#[test]
fn test_dad_duplicate_address_detected_solicitation() {
    // Tests whether a duplicate address will get detected by solicitation
    // In this test, two nodes having the same MAC address will come up at
    // the same time. And both of them will use the EUI address. Each of
    // them should be able to detect each other is using the same address,
    // so they will both give up using that address.
    let mac = [6, 5, 4, 3, 2, 1];
    let multicast_addr = link_local(mac).to_solicited_node_address();

    // Create the devices (will start DAD at the same time).
    let mut local = Node::new(Settings { dad: true, ..host(mac) });
    let mut remote = Node::new(Settings { dad: true, ..host(mac) });
    assert_eq!(local.frames.len(), 1);
    assert_eq!(remote.frames.len(), 1);

    // Both devices should be in the solicited-node multicast group.
    assert!(local.multicast_groups.contains(&multicast_addr));
    assert!(remote.multicast_groups.contains(&multicast_addr));

    step(&mut local, &mut remote);

    // They should now realize the address they intend to use has a
    // duplicate in the local network.
    assert_eq!(local.ctx.addrs, vec![]);
    assert_eq!(remote.ctx.addrs, vec![]);

    // Both devices should not be in the multicast group
    assert!(!local.multicast_groups.contains(&multicast_addr));
    assert!(!remote.multicast_groups.contains(&multicast_addr));
}

#[test]
fn test_dad_duplicate_address_detected_advertisement() {
    // Tests whether a duplicate address will get detected by advertisement
    // In this test, one of the node first assigned itself the local_ip(),
    // then the second node comes up and it should be able to find out that
    // it cannot use the address because someone else has already taken that
    // address.
    let mut local = Node::new(host(LOCAL_MAC));
    let mut remote = Node::new(host(REMOTE_MAC));

    // Enable DAD.
    local.enable_dad();
    remote.enable_dad();

    let multicast_addr = local_ip().to_solicited_node_address();
    local.add_addr(local_ip(), 128);
    // Only local should be in the solicited node multicast group.
    assert!(local.multicast_groups.contains(&multicast_addr));
    assert!(!remote.multicast_groups.contains(&multicast_addr));

    assert_eq!(local.trigger_next_timer(), Some(Timer::Dad(local_ip())));
    let i = local.ctx.find_addr(&local_ip()).unwrap();
    assert_eq!(local.ctx.addrs[i].state, AddressState::Assigned);
    // Remote has no such address, so it did not mind the solicitation.
    step(&mut local, &mut remote);

    remote.add_addr(local_ip(), 128);
    // Local & remote should be in the multicast group.
    assert!(local.multicast_groups.contains(&multicast_addr));
    assert!(remote.multicast_groups.contains(&multicast_addr));

    // The solicitation, and the advertisement that answers it.
    step(&mut local, &mut remote);
    step(&mut local, &mut remote);

    let assigned: Vec<&Ipv6AddressEntry> =
        remote.ctx.addrs.iter().filter(|e| !e.state.is_tentative()).collect();
    assert_eq!(assigned.len(), 1);
    assert_eq!(remote.ctx.find_addr(&local_ip()), None);
    // Let's make sure that our local node still can use that address.
    let i = local.ctx.find_addr(&local_ip()).unwrap();
    assert_eq!(local.ctx.addrs[i].state, AddressState::Assigned);

    // Only local should be in the solicited node multicast group.
    assert!(local.multicast_groups.contains(&multicast_addr));
    assert!(!remote.multicast_groups.contains(&multicast_addr));
}

// -- Routers --

#[test]
fn test_receiving_router_solicitation_validity_check() {
    let src_ip = ip([0, 0, 0, 0, 0, 0, 0, 0, 0, 0, 0, 0, 192, 168, 0, 10]);

    // Test receiving NDP RS when not a router (should not receive)
    let mut node = Node::new(host(LOCAL_MAC));
    node.add_addr(local_ip(), 120);
    node.receive(src_ip, NdpPacket::RouterSolicitation);
    assert_eq!(node.counts, vec![]);
    assert_eq!(node.frames, vec![]);
    assert_eq!(node.neighbor(src_ip), None);
}

#[test]
fn test_receiving_router_advertisement_validity_check() {
    let src_mac = [10, 11, 12, 13, 14, 15];
    let src_ip = ip([0, 0, 0, 0, 0, 0, 0, 0, 0, 0, 0, 0, 192, 168, 0, 10]);
    let mut node = Node::new(host(LOCAL_MAC));
    node.add_addr(local_ip(), 120);

    // Test receiving NDP RA where source IP is not a link local address
    // (should not receive).
    node.receive(src_ip, router_advertisement_message(1, 3, 4, 5));
    assert_eq!(node.count(Counter::RxRouterAdvertisement), 0);

    // Test receiving NDP RA where source IP is a link local address (should
    // receive).
    node.receive(link_local(src_mac), router_advertisement_message(1, 3, 4, 5));
    assert_eq!(node.count(Counter::RxRouterAdvertisement), 1);
}

#[test]
fn test_receiving_router_advertisement_fixed_message() {
    fn assert_reachable_time(node: &Node, base: Duration) {
        let min_reachable = base.nanos / 2;
        let max_reachable = min_reachable * 3;
        let state = &node.ctx.state;
        assert_eq!(state.get_base_reachable_time(), base);
        let reachable_time = state.get_reachable_time().nanos;
        assert!(reachable_time >= min_reachable && reachable_time <= max_reachable);
    }

    let mut node = Node::new(host(LOCAL_MAC));
    node.add_addr(local_ip(), 120);
    let src_ip = link_local(REMOTE_MAC);

    // Receive a router advertisement for a brand new router with a valid
    // lifetime.
    assert!(!node.ctx.state.has_default_router(&src_ip));
    node.receive(src_ip, router_advertisement_message(1, 3, 4, 5));
    assert_eq!(node.count(Counter::RxRouterAdvertisement), 1);
    // We should have the new router in our list with our NDP parameters
    // updated.
    assert!(node.ctx.state.has_default_router(&src_ip));
    assert_reachable_time(&node, millis(4));
    assert_eq!(node.ctx.state.get_retrans_timer(), millis(5));
    assert_eq!(node.ctx.default_hop_limit.get(), 1);

    // Receive a new router advertisement for the same router with a valid
    // lifetime.
    node.receive(src_ip, router_advertisement_message(7, 9, 10, 11));
    assert_eq!(node.count(Counter::RxRouterAdvertisement), 2);
    assert!(node.ctx.state.has_default_router(&src_ip));
    let reachable_time = node.ctx.state.get_reachable_time();
    assert_reachable_time(&node, millis(10));
    assert_eq!(node.ctx.state.get_retrans_timer(), millis(11));
    assert_eq!(node.ctx.default_hop_limit.get(), 7);

    // Receive a new router advertisement for the same router with a valid
    // lifetime and zero valued parameters.

    // Zero value for Reachable Time should not update base_reachable_time.
    // Other non zero values should update.
    node.receive(src_ip, router_advertisement_message(13, 15, 0, 17));
    assert_eq!(node.count(Counter::RxRouterAdvertisement), 3);
    assert!(node.ctx.state.has_default_router(&src_ip));
    // Should be the same value as before.
    assert_reachable_time(&node, millis(10));
    // Should be the same randomly calculated value as before.
    assert_eq!(node.ctx.state.get_reachable_time(), reachable_time);
    // Should update to new value.
    assert_eq!(node.ctx.state.get_retrans_timer(), millis(17));
    // Should update to new value.
    assert_eq!(node.ctx.default_hop_limit.get(), 13);

    // Zero value for Retransmit Time should not update our retrans_time.
    // Other non zero values should update.
    node.receive(src_ip, router_advertisement_message(19, 21, 22, 0));
    assert_eq!(node.count(Counter::RxRouterAdvertisement), 4);
    assert!(node.ctx.state.has_default_router(&src_ip));
    // Should update to new value.
    assert_reachable_time(&node, millis(22));
    // Should be the same value as before.
    assert_eq!(node.ctx.state.get_retrans_timer(), millis(17));
    // Should update to new value.
    assert_eq!(node.ctx.default_hop_limit.get(), 19);

    // Zero value for CurrHopLimit should not update our hop_limit. Other
    // non zero values should update.
    node.receive(src_ip, router_advertisement_message(0, 27, 28, 29));
    assert_eq!(node.count(Counter::RxRouterAdvertisement), 5);
    assert!(node.ctx.state.has_default_router(&src_ip));
    // Should update to new value.
    assert_reachable_time(&node, millis(28));
    // Should update to new value.
    assert_eq!(node.ctx.state.get_retrans_timer(), millis(29));
    // Should be the same value as before.
    assert_eq!(node.ctx.default_hop_limit.get(), 19);

    // Receive new router advertisement with 0 router lifetime, but new
    // parameters.
    node.receive(src_ip, router_advertisement_message(31, 0, 34, 35));
    assert_eq!(node.count(Counter::RxRouterAdvertisement), 6);
    // Router should no longer be in our list.
    assert!(!node.ctx.state.has_default_router(&src_ip));
    assert_reachable_time(&node, millis(34));
    assert_eq!(node.ctx.state.get_retrans_timer(), millis(35));
    assert_eq!(node.ctx.default_hop_limit.get(), 31);

    // Router invalidation timeout must have been cleared since we invalided
    // with the received router advertisement with lifetime 0.
    assert_eq!(node.trigger_next_timer(), None);

    // Receive new router advertisement with non-0 router lifetime, but let
    // it get invalidated.
    node.receive(src_ip, router_advertisement_message(37, 39, 40, 41));
    assert_eq!(node.count(Counter::RxRouterAdvertisement), 7);
    // Router should be re-added.
    assert!(node.ctx.state.has_default_router(&src_ip));
    assert_reachable_time(&node, millis(40));
    assert_eq!(node.ctx.state.get_retrans_timer(), millis(41));
    assert_eq!(node.ctx.default_hop_limit.get(), 37);

    // Invalidate the router by triggering the timeout.
    assert_eq!(
        node.trigger_next_timer(),
        Some(Timer::Ndp(NdpTimerId::new_router_invalidation(DEVICE, src_ip)))
    );
    assert!(!node.ctx.state.has_default_router(&src_ip));

    // No more timers.
    assert_eq!(node.trigger_next_timer(), None);
}

#[test]
fn test_sending_ipv6_packet_after_hop_limit_change() {
    // Sets the hop limit with a router advertisement and sends a packet to
    // make sure the packet uses the new hop limit.
    fn inner_test(node: &mut Node, hop_limit: u8) {
        let src_ip = link_local(REMOTE_MAC);
        assert!(!node.ctx.state.has_default_router(&src_ip));
        node.receive(src_ip, router_advertisement_message(hop_limit, 0, 0, 0));
        // A packet gets the device's hop limit.
        assert_eq!(node.ctx.default_hop_limit.get(), hop_limit);
    }

    let mut node = Node::new(host(LOCAL_MAC));
    node.add_addr(local_ip(), 120);

    // Set hop limit to 100.
    inner_test(&mut node, 100);

    // Set hop limit to 30.
    inner_test(&mut node, 30);
}

#[test]
fn test_receiving_router_advertisement_source_link_layer_option() {
    let mut node = Node::new(host(LOCAL_MAC));
    node.add_addr(local_ip(), 120);
    let src_mac = [10, 11, 12, 13, 14, 15];
    let src_ip = link_local(src_mac);

    // First receive a Router Advertisement without the source link layer
    // and make sure no new neighbor gets added.
    assert!(!node.ctx.state.has_default_router(&src_ip));
    assert_eq!(node.neighbor(src_ip), None);
    node.receive(src_ip, router_advertisement_message(1, 3, 4, 5));
    assert_eq!(node.count(Counter::RxRouterAdvertisement), 1);
    // We should have the new router in our list with our NDP parameters
    // updated.
    assert!(node.ctx.state.has_default_router(&src_ip));
    // Should still not have a neighbor added.
    assert_eq!(node.neighbor(src_ip), None);

    // Receive a new RA but with the source link layer option
    let options = vec![NdpOption::SourceLinkLayerAddress(src_mac.to_vec())];
    node.receive(src_ip, router_advertisement_with(1, 3, 4, 5, options));
    assert_eq!(node.count(Counter::RxRouterAdvertisement), 2);
    assert!(node.ctx.state.has_default_router(&src_ip));
    let neighbor = node.neighbor(src_ip).unwrap();
    assert_eq!(neighbor.link_address.unwrap(), Mac::new(src_mac));
    assert!(neighbor.is_router);
    // Router should be marked stale as a neighbor.
    assert_eq!(neighbor.state, NeighborEntryState::Stale);

    // Trigger router invalidation.
    assert_eq!(
        node.trigger_next_timer(),
        Some(Timer::Ndp(NdpTimerId::new_router_invalidation(DEVICE, src_ip)))
    );

    // Neighbor entry shouldn't change except for `is_router` which should
    // now be `false`.
    assert!(!node.ctx.state.has_default_router(&src_ip));
    let neighbor = node.neighbor(src_ip).unwrap();
    assert_eq!(neighbor.link_address.unwrap(), Mac::new(src_mac));
    assert!(!neighbor.is_router);
    assert_eq!(neighbor.state, NeighborEntryState::Stale);
}

#[test]
fn test_receiving_router_advertisement_mtu_option() {
    fn packet(mtu: u32) -> NdpPacket {
        router_advertisement_with(1, 3, 4, 5, vec![NdpOption::Mtu(mtu)])
    }

    let hw_mtu = 5000;
    let mut node = Node::new(Settings { mtu: hw_mtu, ..host(LOCAL_MAC) });
    let src_ip = link_local([10, 11, 12, 13, 14, 15]);

    // Receive a new RA with a valid MTU option (but the new MTU should only
    // be 5000 as that is the max MTU of the device).
    node.receive(src_ip, packet(5781));
    assert_eq!(node.count(Counter::RxRouterAdvertisement), 1);
    assert!(node.ctx.state.has_default_router(&src_ip));
    assert_eq!(node.mtu, hw_mtu);

    // Receive a new RA with an invalid MTU option (value is lower than IPv6
    // min MTU).
    node.receive(src_ip, packet(MINIMUM_LINK_MTU - 1));
    assert_eq!(node.count(Counter::RxRouterAdvertisement), 2);
    assert!(node.ctx.state.has_default_router(&src_ip));
    assert_eq!(node.mtu, hw_mtu);

    // Receive a new RA with a valid MTU option (value is exactly IPv6 min
    // MTU).
    node.receive(src_ip, packet(MINIMUM_LINK_MTU));
    assert_eq!(node.count(Counter::RxRouterAdvertisement), 3);
    assert!(node.ctx.state.has_default_router(&src_ip));
    assert_eq!(node.mtu, MINIMUM_LINK_MTU);
}

#[test]
fn test_receiving_router_advertisement_prefix_option() {
    fn packet(prefix: Ipv6Addr, prefix_length: u8, valid_lifetime: u32) -> NdpPacket {
        let option = prefix_option(prefix, prefix_length, true, false, valid_lifetime, 0);
        router_advertisement_with(1, 0, 4, 5, vec![option])
    }

    let mut node = Node::new(host(LOCAL_MAC));
    node.add_addr(local_ip(), 120);
    let src_ip = link_local([10, 11, 12, 13, 14, 15]);
    let prefix = ip([0, 0, 0, 0, 0, 0, 0, 0, 0, 0, 0, 0, 192, 168, 0, 0]);
    let prefix_length = 120;
    let subnet = Subnet::new(prefix, prefix_length).unwrap();

    // Receive a new RA with new prefix.
    node.receive(src_ip, packet(prefix, prefix_length, 100));
    assert_eq!(node.count(Counter::RxRouterAdvertisement), 1);
    // Prefix should be in our list now.
    assert!(node.ctx.state.has_prefix(&subnet));
    // Invalidation timeout should be set.
    assert_eq!(node.timers().len(), 1);

    // Receive a RA with same prefix but valid_lifetime = 0;
    node.receive(src_ip, packet(prefix, prefix_length, 0));
    assert_eq!(node.count(Counter::RxRouterAdvertisement), 2);
    // Should remove the prefix from our list now.
    assert!(!node.ctx.state.has_prefix(&subnet));
    // Invalidation timeout should be unset.
    assert_eq!(node.timers(), vec![]);

    // Receive a new RA with new prefix (same as before but new since it
    // isn't in our list right now).
    node.receive(src_ip, packet(prefix, prefix_length, 100));
    assert_eq!(node.count(Counter::RxRouterAdvertisement), 3);
    // Prefix should be in our list now.
    assert!(node.ctx.state.has_prefix(&subnet));
    // Invalidation timeout should be set.
    assert_eq!(node.timers().len(), 1);

    // Receive the exact same RA as before.
    node.receive(src_ip, packet(prefix, prefix_length, 100));
    assert_eq!(node.count(Counter::RxRouterAdvertisement), 4);
    // Prefix should be in our list still.
    assert!(node.ctx.state.has_prefix(&subnet));
    // Invalidation timeout should still be set.
    assert_eq!(node.timers().len(), 1);

    // Timeout the prefix.
    assert_eq!(
        node.trigger_next_timer(),
        Some(Timer::Ndp(NdpTimerId::new_prefix_invalidation(DEVICE, subnet)))
    );

    // Prefix should no longer be in our list.
    assert!(!node.ctx.state.has_prefix(&subnet));

    // No more timers.
    assert_eq!(node.trigger_next_timer(), None);
}

#[test]
fn test_host_send_router_solicitations() {
    fn validate_params(frame: Frame, expected_src_ip: Ipv6Addr) {
        match frame {
            Frame::Ndp { src_mac, src_ip, dst_ip, message, option } => {
                assert_eq!(src_mac, Mac::new(LOCAL_MAC));
                assert_eq!(src_ip, expected_src_ip);
                assert_eq!(dst_ip.bits, ALL_ROUTERS_LINK_LOCAL_MULTICAST_ADDRESS);
                assert_eq!(message, NdpMessage::RouterSolicitation);
                assert_eq!(
                    option,
                    Some(LinkOption::SourceLinkLayerAddress(Mac::new(LOCAL_MAC)))
                );
            }
            Frame::Ping { .. } => panic!("not a router solicitation"),
        }
    }

    let timer_id = Timer::Ndp(NdpTimerId::new_router_solicitation(DEVICE));
    let interval = secs(RTR_SOLICITATION_INTERVAL);

    // By default, we should send `MAX_RTR_SOLICITATIONS` number of Router
    // Solicitation messages.
    let solicitations = Some(MAX_RTR_SOLICITATIONS);
    let mut node = Node::new(Settings { solicitations, ..host(LOCAL_MAC) });
    assert_eq!(node.frames, vec![]);

    let time = node.ctx.now;
    assert_eq!(node.trigger_next_timer(), Some(timer_id));
    // Initial router solicitation should be a random delay between 0 and
    // `MAX_RTR_SOLICITATION_DELAY`.
    assert!(
        node.ctx.now.duration_since(time).nanos < secs(MAX_RTR_SOLICITATION_DELAY).nanos
    );
    assert_eq!(node.frames.len(), 1);
    validate_params(node.frames[0], link_local(LOCAL_MAC));

    // Should get 2 more router solicitation messages
    let time = node.ctx.now;
    assert_eq!(node.trigger_next_timer(), Some(timer_id));
    assert_eq!(node.ctx.now.duration_since(time), interval);
    validate_params(node.frames[1], link_local(LOCAL_MAC));

    // Before the next one, lets assign an IP address (DAD won't be
    // performed so it will be assigned immediately. The router solicitation
    // message will now use the new assigned IP as the source.
    node.add_addr(local_ip(), 128);
    let time = node.ctx.now;
    assert_eq!(node.trigger_next_timer(), Some(timer_id));
    assert_eq!(node.ctx.now.duration_since(time), interval);
    validate_params(node.frames[2], local_ip());

    // No more timers.
    assert_eq!(node.trigger_next_timer(), None);
    // Should have only sent 3 packets (Router solicitations).
    assert_eq!(node.frames.len(), 3);

    // Configure MAX_RTR_SOLICITATIONS in the stack.
    let mut node = Node::new(Settings { solicitations: Some(2), ..host(LOCAL_MAC) });
    assert_eq!(node.frames, vec![]);

    let time = node.ctx.now;
    assert_eq!(node.trigger_next_timer(), Some(timer_id));
    // Initial router solicitation should be a random delay between 0 and
    // `MAX_RTR_SOLICITATION_DELAY`.
    assert!(
        node.ctx.now.duration_since(time).nanos < secs(MAX_RTR_SOLICITATION_DELAY).nanos
    );
    assert_eq!(node.frames.len(), 1);

    // Should trigger 1 more router solicitations
    let time = node.ctx.now;
    assert_eq!(node.trigger_next_timer(), Some(timer_id));
    assert_eq!(node.ctx.now.duration_since(time), interval);
    assert_eq!(node.frames.len(), 2);

    // Each packet would be the same.
    for frame in &node.frames {
        validate_params(*frame, link_local(LOCAL_MAC));
    }

    // No more timers.
    assert_eq!(node.trigger_next_timer(), None);
}

#[test]
fn test_router_solicitation_on_routing_enabled_changes() {
    // Make sure that when an interface goes from host -> router, it stops
    // sending Router Solicitations, and starts sending them when it goes
    // form router -> host as routers should not send Router Solicitation
    // messages, but hosts should.
    fn is_solicitation(frame: &Frame) -> bool {
        matches!(frame, Frame::Ndp { message: NdpMessage::RouterSolicitation, .. })
    }

    let id = NdpTimerId::new_router_solicitation(DEVICE);
    let solicitations = Some(MAX_RTR_SOLICITATIONS);

    // If netstack is not set to forward packets, make sure router
    // solicitations do not get cancelled when we enable forwarding on the
    // device.
    let mut node = Node::new(Settings { solicitations, ..host(LOCAL_MAC) });

    // Send the first router solicitation.
    assert_eq!(node.frames, vec![]);
    assert!(node.timer(id).is_some());
    assert_eq!(node.trigger_next_timer(), Some(Timer::Ndp(id)));

    // Should have sent a router solicitation and still have the timer
    // setup.
    assert_eq!(node.frames.len(), 1);
    assert!(is_solicitation(&node.frames[0]));
    // Capture the instant when the timer was supposed to fire so we can
    // make sure that a new timer doesn't replace the current one.
    let instant = node.timer(id);
    assert!(instant.is_some());

    // Enable routing on device.
    node.set_routing_enabled(true);
    assert!(node.ctx.routing_enabled);

    // Should have not send any new packets and still have the original
    // router solicitation timer set.
    assert_eq!(node.frames.len(), 1);
    assert_eq!(node.timer(id), instant);

    // Now make the netstack and a device actually routing capable.
    let mut node = Node::new(Settings { solicitations, forward: true, ..host(LOCAL_MAC) });

    // Send the first router solicitation.
    assert_eq!(node.frames, vec![]);
    assert!(node.timer(id).is_some());
    assert_eq!(node.trigger_next_timer(), Some(Timer::Ndp(id)));

    // Should have sent a frame and have a router solicitation timer setup.
    assert_eq!(node.frames.len(), 1);
    assert!(is_solicitation(&node.frames[0]));
    assert!(node.timer(id).is_some());

    // Enable routing on the device.
    node.set_routing_enabled(true);
    assert!(node.ctx.is_router_device());

    // Should have not sent any new packets, but unset the router
    // solicitation timer.
    assert_eq!(node.frames.len(), 1);
    assert_eq!(node.timer(id), None);

    // Unsetting routing should succeed.
    node.set_routing_enabled(false);
    assert!(!node.ctx.is_router_device());
    assert_eq!(node.frames.len(), 1);
    assert!(node.timer(id).is_some());

    // Send the first router solicitation after being turned into a host.
    assert_eq!(node.trigger_next_timer(), Some(Timer::Ndp(id)));

    // Should have sent a router solicitation.
    assert_eq!(node.frames.len(), 2);
    assert!(is_solicitation(&node.frames[1]));
    assert!(node.timer(id).is_some());
}

// -- Address autoconfiguration --

fn assert_lifetime_timers(node: &Node, valid_lifetime: u32, preferred_lifetime: u32) {
    let now = node.ctx.now;
    assert_eq!(
        node.timer(deprecation(slaac_addr())),
        Some(now.add_duration(secs(preferred_lifetime.into())))
    );
    assert_eq!(
        node.timer(invalidation(slaac_addr())),
        Some(now.add_duration(secs(valid_lifetime.into())))
    );
}

fn assert_only_slaac_addr(node: &Node, state: AddressState) {
    let addrs = node.global_addrs();
    assert_eq!(addrs.len(), 1);
    assert_eq!(addrs[0].addr_sub.subnet, Subnet::new(ip(PREFIX), 64).unwrap());
    assert_eq!(addrs[0].addr_sub.addr, slaac_addr());
    assert_eq!(addrs[0].state, state);
    assert!(is_slaac(&addrs[0]));
}

#[test]
fn test_router_stateless_address_autoconfiguration() {
    // Routers should not perform SLAAC for global addresses.
    let mut node = Node::new(Settings { forward: true, ..host(LOCAL_MAC) });
    node.set_routing_enabled(true);
    let src_ip = link_local(REMOTE_MAC);

    // Receive a new RA with new prefix (autonomous).
    //
    // Should not get a new IP.
    node.receive(src_ip, slaac_packet(ip(PREFIX), 64, true, false, 100, 0));
    assert_eq!(node.global_addrs(), vec![]);
    node.receive(src_ip, slaac_packet(ip(PREFIX), 64, true, true, 100, 50));
    assert_eq!(node.global_addrs(), vec![]);

    // No timers.
    assert_eq!(node.trigger_next_timer(), None);
}

#[test]
fn test_host_stateless_address_autoconfiguration() {
    let mut node = Node::new(host(LOCAL_MAC));
    let src_ip = link_local(REMOTE_MAC);
    let subnet = Subnet::new(ip(PREFIX), 64).unwrap();
    let expected_addr = slaac_addr();

    // Enable DAD for future IPs.
    node.enable_dad();

    // Receive a new RA with new prefix (not autonomous)
    node.receive(src_ip, slaac_packet(ip(PREFIX), 64, true, false, 100, 0));
    // Prefix should be in our list now.
    assert!(node.ctx.state.has_prefix(&subnet));
    // No new address should be formed.
    assert_eq!(node.global_addrs(), vec![]);

    // Receive a new RA with new prefix (autonomous).
    //
    // Should get a new IP.
    let valid_lifetime = 10000;
    let preferred_lifetime = 9000;
    let packet =
        || slaac_packet(ip(PREFIX), 64, true, true, valid_lifetime, preferred_lifetime);
    node.receive(src_ip, packet());
    assert!(node.ctx.state.has_prefix(&subnet));

    // Should have gotten a new IP.
    assert_only_slaac_addr(&node, TENTATIVE);

    // Make sure deprecate and invalidation timers are set.
    assert_lifetime_timers(&node, valid_lifetime, preferred_lifetime);

    // Complete DAD
    assert_eq!(node.run_for(secs(1)), vec![Timer::Dad(expected_addr)]);
    assert_only_slaac_addr(&node, AddressState::Assigned);

    // Receive the same RA.
    //
    // Should not get a new IP, but keep the one generated before.
    node.receive(src_ip, packet());
    assert!(node.ctx.state.has_prefix(&subnet));

    // Should not have changed.
    assert_only_slaac_addr(&node, AddressState::Assigned);

    // Timers should have been reset.
    assert_lifetime_timers(&node, valid_lifetime, preferred_lifetime);

    // Preferred lifetime expiration.
    //
    // Should be marked as deprecated.
    assert_eq!(
        node.run_for(secs(preferred_lifetime.into())),
        vec![Timer::Ndp(deprecation(expected_addr))]
    );
    assert_only_slaac_addr(&node, AddressState::Deprecated);

    // Valid lifetime expiration.
    //
    // Should be deleted.
    assert_eq!(
        node.run_for(secs((valid_lifetime - preferred_lifetime).into())),
        vec![
            Timer::Ndp(NdpTimerId::new_prefix_invalidation(DEVICE, subnet)),
            Timer::Ndp(invalidation(expected_addr))
        ]
    );
    assert_eq!(node.global_addrs(), vec![]);

    // No more timers.
    assert_eq!(node.trigger_next_timer(), None);
}

#[test]
fn test_host_stateless_address_autoconfiguration_new_ra_with_preferred_lifetime_zero() {
    let mut node = Node::new(host(LOCAL_MAC));
    let src_ip = link_local(REMOTE_MAC);
    let subnet = Subnet::new(ip(PREFIX), 64).unwrap();
    let expected_addr = slaac_addr();

    // Enable DAD for future IPs.
    node.enable_dad();

    // Receive a new RA with new prefix (autonomous).
    node.receive(src_ip, slaac_packet(ip(PREFIX), 64, true, true, 10000, 0));
    assert!(node.ctx.state.has_prefix(&subnet));

    // Should NOT have gotten a new IP.
    assert_eq!(node.global_addrs(), vec![]);

    // Deprecate and invalidation timers are not set.
    assert_eq!(node.timer(deprecation(expected_addr)), None);
    assert_eq!(node.timer(invalidation(expected_addr)), None);
    assert_eq!(node.dad_timers, vec![]);

    assert_eq!(node.run_for(secs(1)), vec![]);
    assert_eq!(node.global_addrs(), vec![]);
}

#[test]
fn test_host_stateless_address_autoconfiguration_updated_ra_with_preferred_lifetime_zero() {
    let mut node = Node::new(host(LOCAL_MAC));
    let src_ip = link_local(REMOTE_MAC);
    let subnet = Subnet::new(ip(PREFIX), 64).unwrap();
    let expected_addr = slaac_addr();

    // Enable DAD for future IPs.
    node.enable_dad();

    // Receive a new RA with new prefix (autonomous).
    //
    // Should get a new IP.
    let valid_lifetime = 10000;
    let preferred_lifetime = 9000;
    node.receive(
        src_ip,
        slaac_packet(ip(PREFIX), 64, true, true, valid_lifetime, preferred_lifetime),
    );
    assert!(node.ctx.state.has_prefix(&subnet));

    // Should have gotten a new IP.
    assert_only_slaac_addr(&node, TENTATIVE);

    // Make sure deprecate and invalidation timers are set.
    assert_lifetime_timers(&node, valid_lifetime, preferred_lifetime);
    assert_eq!(node.dad_timers.len(), 1);
    assert_eq!(node.dad_timers[0].1, expected_addr);

    assert_eq!(node.run_for(secs(1)), vec![Timer::Dad(expected_addr)]);
    assert_only_slaac_addr(&node, AddressState::Assigned);

    // Receive the same RA twice, now with preferred_lifetime = 0
    //
    // Should not get a new IP, but keep the one generated before.
    for _ in 0..2 {
        node.receive(src_ip, slaac_packet(ip(PREFIX), 64, true, true, valid_lifetime, 0));
        assert!(node.ctx.state.has_prefix(&subnet));

        assert_only_slaac_addr(&node, AddressState::Deprecated);

        // Timers should have been reset.
        assert_eq!(node.timer(deprecation(expected_addr)), None);
        assert_eq!(
            node.timer(invalidation(expected_addr)),
            Some(node.ctx.now.add_duration(secs(valid_lifetime.into())))
        );
    }

    // Receive the same RA, now with preferred_lifetime > 0
    //
    // Should not get a new IP, but keep the one generated before.
    node.receive(
        src_ip,
        slaac_packet(ip(PREFIX), 64, true, true, valid_lifetime, preferred_lifetime),
    );
    assert!(node.ctx.state.has_prefix(&subnet));

    // The address can be used again.
    assert_only_slaac_addr(&node, AddressState::Assigned);

    // Make sure deprecate and invalidation timers are set.
    assert_lifetime_timers(&node, valid_lifetime, preferred_lifetime);
    assert_eq!(node.dad_timers, vec![]);

    assert_eq!(node.run_for(secs(1)), vec![]);
    assert_only_slaac_addr(&node, AddressState::Assigned);

    // Preferred lifetime expiration.
    //
    // Should be marked as deprecated.
    assert_eq!(
        node.run_for(secs(preferred_lifetime.into())),
        vec![Timer::Ndp(deprecation(expected_addr))]
    );
    assert_only_slaac_addr(&node, AddressState::Deprecated);

    // Valid lifetime expiration.
    //
    // Should be deleted.
    assert_eq!(
        node.run_for(secs((valid_lifetime - preferred_lifetime).into())),
        vec![
            Timer::Ndp(NdpTimerId::new_prefix_invalidation(DEVICE, subnet)),
            Timer::Ndp(invalidation(expected_addr))
        ]
    );
    assert_eq!(node.global_addrs(), vec![]);

    // No more timers.
    assert_eq!(node.trigger_next_timer(), None);
}

#[test]
fn test_host_slaac_and_manual_address_and_prefix_conflict() {
    // SLAAC should not overwrite any manually added addresses that may
    // conflict with the generated SLAAC address.
    let mut node = Node::new(host(LOCAL_MAC));
    let src_ip = link_local(REMOTE_MAC);
    let expected_addr_sub = AddrSubnet::new(slaac_addr(), 64).unwrap();

    // Manually give the device the expected address/subnet
    node.add_addr(slaac_addr(), 64);
    let addrs = node.global_addrs();
    assert_eq!(addrs.len(), 1);
    assert_eq!(addrs[0].state, AddressState::Assigned);
    assert_eq!(addrs[0].config, AddrConfig::Manual);
    assert_eq!(node.timers(), vec![]);

    // Receive a new RA with new prefix (autonomous).
    //
    // Should not get a new IP.
    node.receive(src_ip, slaac_packet(ip(PREFIX), 64, false, true, 10000, 9000));

    // Address state and configuration type should not have changed.
    let addrs = node.global_addrs();
    assert_eq!(addrs.len(), 1);
    assert_eq!(addrs[0].addr_sub, expected_addr_sub);
    assert_eq!(addrs[0].state, AddressState::Assigned);
    assert_eq!(addrs[0].config, AddrConfig::Manual);

    // No new timers were added.
    assert_eq!(node.timers(), vec![]);
}

#[test]
fn test_host_slaac_and_manual_address_conflict() {
    // SLAAC should not overwrite any manually added addresses that may
    // conflict with the generated SLAAC address, even if the manually added
    // address has a different prefix.
    let mut node = Node::new(host(LOCAL_MAC));
    let src_ip = link_local(REMOTE_MAC);
    let manual_addr_sub = AddrSubnet::new(slaac_addr(), 64 + 10).unwrap();

    // Manually give the device the expected address but with a different
    // prefix.
    node.add_addr(slaac_addr(), 64 + 10);
    let addrs = node.global_addrs();
    assert_eq!(addrs.len(), 1);
    assert_eq!(addrs[0].addr_sub, manual_addr_sub);
    assert_eq!(addrs[0].state, AddressState::Assigned);
    assert_eq!(addrs[0].config, AddrConfig::Manual);
    assert_eq!(node.timers(), vec![]);

    // Receive a new RA with new prefix (autonomous).
    //
    // Should not get a new IP.
    node.receive(src_ip, slaac_packet(ip(PREFIX), 64, false, true, 10000, 9000));
    // Address state and configuration type should not have changed.
    let addrs = node.global_addrs();
    assert_eq!(addrs.len(), 1);
    assert_eq!(addrs[0].addr_sub, manual_addr_sub);
    assert_eq!(addrs[0].state, AddressState::Assigned);
    assert_eq!(addrs[0].config, AddrConfig::Manual);

    // No new timers were added.
    assert_eq!(node.timers(), vec![]);
}

#[test]
fn test_host_slaac_and_manual_address_prefix_conflict() {
    // SLAAC should not overwrite any manually added addresses that use the
    // same prefix as a SLAAC generated one.
    let mut node = Node::new(host(LOCAL_MAC));
    let src_ip = link_local(REMOTE_MAC);
    let manual_addr = ip([1, 2, 3, 4, 5, 6, 7, 8, 9, 10, 11, 12, 13, 14, 15, 16]);
    let manual_addr_sub = AddrSubnet::new(manual_addr, 64).unwrap();
    let slaac_addr_sub = AddrSubnet::new(slaac_addr(), 64).unwrap();

    // Manually give the device the expected address with the same prefix.
    node.add_addr(manual_addr, 64);
    let addrs = node.global_addrs();
    assert_eq!(addrs.len(), 1);
    assert_eq!(addrs[0].state, AddressState::Assigned);
    assert_eq!(addrs[0].config, AddrConfig::Manual);
    assert_eq!(node.timers(), vec![]);

    // Receive a new RA with new prefix (autonomous).
    node.receive(src_ip, slaac_packet(ip(PREFIX), 64, false, true, 10000, 9000));
    let addrs = node.global_addrs();
    assert_eq!(addrs.len(), 2);
    // Address state and configuration type should not have changed.
    assert_eq!(addrs[0].addr_sub, manual_addr_sub);
    assert_eq!(addrs[0].state, AddressState::Assigned);
    assert_eq!(addrs[0].config, AddrConfig::Manual);
    assert_eq!(addrs[1].addr_sub, slaac_addr_sub);
    assert_eq!(addrs[1].state, AddressState::Assigned);
    assert!(is_slaac(&addrs[1]));

    // Address invalidation timers were added.
    assert_eq!(node.timers().len(), 2);
}

#[test]
fn test_host_slaac_invalid_prefix_information() {
    let mut node = Node::new(host(LOCAL_MAC));
    let src_ip = link_local(REMOTE_MAC);
    assert_eq!(node.global_addrs(), vec![]);

    // Receive a new RA with new prefix (autonomous), but preferred lifetime
    // is greater than valid.
    //
    // Should not get a new IP.
    node.receive(src_ip, slaac_packet(ip(PREFIX), 64, false, true, 9000, 10000));
    assert_eq!(node.global_addrs(), vec![]);

    // No address invalidation timers were added.
    assert_eq!(node.timers(), vec![]);
}

#[test]
fn test_host_slaac_address_deprecate_while_tentative() {
    // Invalidate an address right away if we attempt to deprecate a
    // tentative address.
    let mut node = Node::new(host(LOCAL_MAC));
    let src_ip = link_local(REMOTE_MAC);
    let expected_addr = slaac_addr();

    // Have no addresses yet.
    assert_eq!(node.global_addrs(), vec![]);

    // Enable DAD for future IPs.
    node.enable_dad();

    // Set the retransmit timer between neighbor solicitations to be greater
    // than the preferred lifetime of the prefix.
    node.ctx.state.set_retrans_timer(secs(10));

    // Receive a new RA with new prefix (autonomous).
    //
    // Should get a new IP and set preferred lifetime to 1s.
    let valid_lifetime = 2;
    let preferred_lifetime = 1;
    node.receive(
        src_ip,
        slaac_packet(ip(PREFIX), 64, false, true, valid_lifetime, preferred_lifetime),
    );

    // Should have gotten a new IP.
    assert_only_slaac_addr(&node, TENTATIVE);

    // Make sure deprecate and invalidation timers are set.
    assert_lifetime_timers(&node, valid_lifetime, preferred_lifetime);

    // Trigger the deprecation timer.
    assert_eq!(node.trigger_next_timer(), Some(Timer::Ndp(deprecation(expected_addr))));

    // At this point, the address (that was tentative) should just be
    // invalidated (removed) since we should not have any existing
    // connections using the tentative address.
    assert_eq!(node.global_addrs(), vec![]);

    // No more timers.
    assert_eq!(node.trigger_next_timer(), None);
}

#[test]
fn test_host_slaac_valid_lifetime_updates() {
    // Make sure we update the valid lifetime only in certain scenarios
    // to prevent denial-of-service attacks as outlined in RFC 4862 section
    // 5.5.3.e. Note, the preferred lifetime should always be updated.
    fn inner_test(
        node: &mut Node,
        preferred_lifetime: u32,
        valid_lifetime: u32,
        expected_valid_lifetime: u32,
    ) {
        node.receive(
            link_local(REMOTE_MAC),
            slaac_packet(ip(PREFIX), 64, false, true, valid_lifetime, preferred_lifetime),
        );
        assert_only_slaac_addr(node, AddressState::Assigned);
        assert_eq!(
            node.global_addrs()[0].config,
            AddrConfig::Slaac {
                valid_until: Some(
                    node.ctx.now.add_duration(secs(expected_valid_lifetime.into()))
                ),
            }
        );
        assert_lifetime_timers(node, expected_valid_lifetime, preferred_lifetime);
    }

    let mut node = Node::new(host(LOCAL_MAC));

    // Have no addresses yet.
    assert_eq!(node.global_addrs(), vec![]);

    // Receive a new RA with new prefix (autonomous).
    //
    // Should get a new IP and set preferred lifetime to 1s.

    // Make sure deprecate and invalidation timers are set.
    inner_test(&mut node, 30, 60, 60);

    // If the valid lifetime is greater than the remaining lifetime, update
    // the valid lifetime.
    inner_test(&mut node, 70, 70, 70);

    // If the valid lifetime is greater than 2 hrs, update the valid
    // lifetime.
    inner_test(&mut node, 1001, 7201, 7201);

    // Make remaining lifetime < 2 hrs.
    assert_eq!(node.run_for(secs(1000)), vec![]);

    // If the remaining lifetime is <= 2 hrs & valid lifetime is less than
    // that, don't update valid lifetime.
    inner_test(&mut node, 1000, 2000, 6201);

    // Make the remaining lifetime > 2 hours.
    inner_test(&mut node, 1000, 10800, 10800);

    // If the remaining lifetime is > 2 hours, and new valid lifetime is < 2
    // hours, set the valid lifetime to 2 hours.
    inner_test(&mut node, 1000, 1000, 7200);

    // If the remaining lifetime is <= 2 hrs & valid lifetime is less than
    // that, don't update valid lifetime.
    inner_test(&mut node, 1000, 2000, 7200);

    // Increase valid lifetime twice while it is greater than 2 hours.
    inner_test(&mut node, 1001, 7201, 7201);
    inner_test(&mut node, 1001, 7202, 7202);

    // Make remaining lifetime < 2 hrs.
    assert_eq!(node.run_for(secs(1000)), vec![]);

    // If the remaining lifetime is <= 2 hrs & valid lifetime is less than
    // that, don't update valid lifetime.
    inner_test(&mut node, 1001, 6202, 6202);

    // Increase valid lifetime twice while it is less than 2 hours.
    inner_test(&mut node, 1001, 6203, 6203);
    inner_test(&mut node, 1001, 6204, 6204);
}

// -- More of the same --

#[test]
fn looking_twice_solicits_once() {
    let mut node = Node::new(host(LOCAL_MAC));
    assert_eq!(lookup(&mut node.ctx, remote_ip()), None);
    assert_eq!(lookup(&mut node.ctx, remote_ip()), None);
    node.act();
    assert_eq!(
        node.frames,
        vec![Frame::Ndp {
            src_mac: Mac::new(LOCAL_MAC),
            src_ip: link_local(LOCAL_MAC),
            dst_ip: remote_ip().to_solicited_node_address(),
            message: NdpMessage::NeighborSolicitation { target_address: remote_ip() },
            option: Some(LinkOption::SourceLinkLayerAddress(Mac::new(LOCAL_MAC))),
        }]
    );
    let timer = Timer::Ndp(resolution(remote_ip()));
    assert_eq!(node.timers(), vec![(Instant { nanos: 1_000_000_000 }, timer)]);
}

#[test]
fn inserted_neighbor_is_found() {
    let mut node = Node::new(host(LOCAL_MAC));
    insert_neighbor(&mut node.ctx, remote_ip(), Mac::new(REMOTE_MAC));
    assert_eq!(lookup(&mut node.ctx, remote_ip()), Some(Mac::new(REMOTE_MAC)));
    assert!(node.ctx.actions.is_empty());
    assert_eq!(node.timers(), vec![]);
}

#[test]
fn no_solicitation_without_a_source() {
    // All addresses are tentative.
    let mut node = Node::new(Settings { dad: true, ..host(LOCAL_MAC) });
    node.frames.clear();
    assert_eq!(lookup(&mut node.ctx, remote_ip()), None);
    node.act();
    assert_eq!(node.frames, vec![]);
    // The neighbor is tried again all the same.
    assert!(node.timer(resolution(remote_ip())).is_some());
}

#[test]
fn router_solicitation_without_a_source_has_no_option() {
    let mut node = Node::new(Settings {
        dad: true,
        solicitations: Some(1),
        ..host(LOCAL_MAC)
    });
    node.frames.clear();
    handle_timer(&mut node.ctx, NdpTimerId::new_router_solicitation(DEVICE));
    node.act();
    assert_eq!(
        node.frames,
        vec![Frame::Ndp {
            src_mac: Mac::new(LOCAL_MAC),
            src_ip: Ipv6Addr { bits: 0 },
            dst_ip: Ipv6Addr { bits: ALL_ROUTERS_LINK_LOCAL_MULTICAST_ADDRESS },
            message: NdpMessage::RouterSolicitation,
            option: None,
        }]
    );
}

#[test]
fn solicitations_follow_the_configuration() {
    let mut node = Node::new(host(LOCAL_MAC));
    assert_eq!(node.timers(), vec![]);
    let mut config = NdpConfiguration::default();
    config.set_max_router_solicitations(NonZeroU8::new(1));
    set_ndp_configuration(&mut node.ctx, config);
    // Nothing happens until routers are solicited again.
    assert_eq!(node.timers(), vec![]);
    start_soliciting_routers_with_delay(&mut node.ctx, millis(250));
    let id = NdpTimerId::new_router_solicitation(DEVICE);
    assert_eq!(node.timers(), vec![(Instant { nanos: 250_000_000 }, Timer::Ndp(id))]);
    assert_eq!(node.trigger_next_timer(), Some(Timer::Ndp(id)));
    assert_eq!(node.frames.len(), 1);
    assert_eq!(node.trigger_next_timer(), None);
}

#[test]
fn tentative_address_is_not_advertised() {
    let mut node = Node::new(Settings { dad: true, ..host(LOCAL_MAC) });
    node.frames.clear();
    node.receive(
        remote_ip(),
        NdpPacket::NeighborSolicitation { target_address: link_local(LOCAL_MAC), options: vec![] },
    );
    assert_eq!(node.frames, vec![]);
    assert_eq!(node.ctx.addrs.len(), 1);
    assert_eq!(node.count(Counter::RxNeighborSolicitation), 0);
}

#[test]
fn solicitation_is_answered() {
    let mut node = Node::new(host(LOCAL_MAC));
    let target_address = link_local(LOCAL_MAC);
    let answer = |solicited_flag| {
        NdpMessage::NeighborAdvertisement(NeighborAdvertisement {
            router_flag: false,
            solicited_flag,
            override_flag: false,
            target_address,
        })
    };
    let option = Some(LinkOption::TargetLinkLayerAddress(Mac::new(LOCAL_MAC)));

    node.receive(
        remote_ip(),
        NdpPacket::NeighborSolicitation { target_address, options: vec![] },
    );
    node.receive(
        Ipv6Addr { bits: 0 },
        NdpPacket::NeighborSolicitation { target_address, options: vec![] },
    );
    assert_eq!(
        node.frames,
        vec![
            Frame::Ndp {
                src_mac: Mac::new(LOCAL_MAC),
                src_ip: target_address,
                dst_ip: remote_ip(),
                message: answer(true),
                option,
            },
            Frame::Ndp {
                src_mac: Mac::new(LOCAL_MAC),
                src_ip: target_address,
                dst_ip: Ipv6Addr { bits: ALL_NODES_LINK_LOCAL_MULTICAST_ADDRESS },
                message: answer(false),
                option,
            },
        ]
    );
    // Nothing told the node of the neighbor's link address.
    assert_eq!(node.neighbor(remote_ip()), None);
}

#[test]
fn other_solicitations_are_ignored() {
    let mut node = Node::new(host(LOCAL_MAC));
    for target_address in [remote_ip(), Ipv6Addr { bits: ALL_NODES_LINK_LOCAL_MULTICAST_ADDRESS }] {
        node.receive(
            remote_ip(),
            NdpPacket::NeighborSolicitation { target_address, options: vec![] },
        );
    }
    node.receive(remote_ip(), NdpPacket::Redirect);
    assert_eq!(node.frames, vec![]);
    assert_eq!(node.counts, vec![]);
}

#[test]
fn advertisement_of_an_own_address_is_not_taken() {
    let mut node = Node::new(host(LOCAL_MAC));
    let own = link_local(LOCAL_MAC);
    node.receive(
        own,
        neighbor_advertisement_message(own, false, true, true, Some(Mac::new(REMOTE_MAC))),
    );
    assert_eq!(node.ctx.addrs.len(), 1);
    assert_eq!(node.count(Counter::RxNeighborAdvertisement), 0);
}

#[test]
fn router_that_became_a_host_is_no_default_router() {
    let mut node = Node::new(host(LOCAL_MAC));
    let router = link_local(REMOTE_MAC);
    let options = vec![NdpOption::SourceLinkLayerAddress(REMOTE_MAC.to_vec())];
    node.receive(router, router_advertisement_with(0, 100, 0, 0, options));
    assert!(node.ctx.state.has_default_router(&router));
    assert!(node.neighbor(router).unwrap().is_router);

    node.receive(router, neighbor_advertisement_message(router, false, true, false, None));
    assert!(!node.ctx.state.has_default_router(&router));
    assert!(!node.neighbor(router).unwrap().is_router);
}

#[test]
fn endless_prefix_is_not_invalidated() {
    let mut node = Node::new(host(LOCAL_MAC));
    let subnet = Subnet::new(ip(PREFIX), 64).unwrap();
    let src_ip = link_local(REMOTE_MAC);
    node.receive(src_ip, slaac_packet(ip(PREFIX), 64, true, false, 100, 0));
    assert_eq!(node.timers().len(), 1);
    node.receive(src_ip, slaac_packet(ip(PREFIX), 64, true, false, INFINITE_LIFETIME, 0));
    assert!(node.ctx.state.has_prefix(&subnet));
    assert_eq!(node.timers(), vec![]);
}

#[test]
fn improper_prefixes_are_not_taken() {
    let mut node = Node::new(host(LOCAL_MAC));
    let src_ip = link_local(REMOTE_MAC);
    let multicast = Ipv6Addr { bits: ALL_NODES_LINK_LOCAL_MULTICAST_ADDRESS };
    let own_link = ip([0xfe, 0x80, 0, 0, 0, 0, 0, 0, 0, 0, 0, 0, 0, 0, 0, 0]);
    // A multicast prefix, the link-local prefix, host bits after the prefix, and no such length.
    for (prefix, length) in
        [(multicast, 128), (own_link, 64), (slaac_addr(), 64), (ip(PREFIX), 129)]
    {
        node.receive(src_ip, slaac_packet(prefix, length, true, true, 100, 50));
    }
    assert_eq!(node.ctx.addrs.len(), 1);
    assert_eq!(node.timers(), vec![]);

    // An interface identifier does not fit behind any other length.
    node.receive(src_ip, slaac_packet(ip(PREFIX), 72, false, true, 100, 50));
    // What is not valid at all gives no address either.
    node.receive(src_ip, slaac_packet(ip(PREFIX), 64, false, true, 0, 0));
    assert_eq!(node.ctx.addrs.len(), 1);
    assert_eq!(node.timers(), vec![]);
}

#[test]
fn deprecated_address_stays_until_it_is_invalid() {
    let mut node = Node::new(host(LOCAL_MAC));
    let src_ip = link_local(REMOTE_MAC);
    node.receive(src_ip, slaac_packet(ip(PREFIX), 64, false, true, 100, 0));
    // It is assigned at once here, so it is deprecated, not removed.
    assert_only_slaac_addr(&node, AddressState::Deprecated);
    assert_eq!(node.trigger_next_timer(), Some(Timer::Ndp(invalidation(slaac_addr()))));
    assert_eq!(node.ctx.now, Instant { nanos: 100_000_000_000 });
    assert_eq!(node.global_addrs(), vec![]);
}

#[test]
fn reachable_time_follows_the_draw() {
    let config = NdpConfiguration::default();
    // A base of 30 seconds.
    let mut state: NdpState<Mac> = NdpState::new_with_draw(config, secs(7));
    assert_eq!(state.get_reachable_time(), secs(22));
    // The same base keeps the time.
    state.set_base_reachable_time_with_draw(secs(30), secs(1));
    assert_eq!(state.get_reachable_time(), secs(22));
    state.set_base_reachable_time_with_draw(secs(10), secs(1));
    assert_eq!(state.get_base_reachable_time(), secs(10));
    assert_eq!(state.get_reachable_time(), secs(6));
    state.recalculate_reachable_time_with_draw(secs(9));
    assert_eq!(state.get_reachable_time(), secs(14));

    let mut node = Node::new(host(LOCAL_MAC));
    receive_ndp_packet_with_draw(
        &mut node.ctx,
        Ipv6SourceAddr::Unicast(link_local(REMOTE_MAC)),
        &router_advertisement_message(0, 0, 4000, 0),
        secs(3),
    );
    assert_eq!(node.ctx.state.get_reachable_time(), secs(5));
}

#[test]
fn random_reachable_time_is_in_range() {
    let config = NdpConfiguration::default();
    let mut distinct = vec![];
    for _ in 0..100 {
        let mut state: NdpState<Mac> = NdpState::new(config);
        let time = state.get_reachable_time().nanos;
        assert!(secs(15).nanos <= time && time < secs(45).nanos);
        if !distinct.contains(&time) {
            distinct.push(time);
        }
        state.set_base_reachable_time(secs(2));
        let time = state.get_reachable_time().nanos;
        assert!(secs(1).nanos <= time && time < secs(3).nanos);
        state.recalculate_reachable_time();
        let time = state.get_reachable_time().nanos;
        assert!(secs(1).nanos <= time && time < secs(3).nanos);
    }
    assert!(distinct.len() > 1);
}

#[test]
fn first_long_enough_option_counts() {
    let options = vec![
        NdpOption::TargetLinkLayerAddress(vec![9; 6]),
        NdpOption::SourceLinkLayerAddress(vec![1, 2, 3]),
        NdpOption::Other,
        NdpOption::SourceLinkLayerAddress(vec![1, 2, 3, 4, 5, 6, 7, 8]),
        NdpOption::SourceLinkLayerAddress(vec![7; 6]),
    ];
    assert_eq!(
        get_source_link_layer_option::<Mac>(&options),
        Some(Mac::new([1, 2, 3, 4, 5, 6]))
    );
    assert_eq!(get_target_link_layer_option::<Mac>(&options), Some(Mac::new([9; 6])));
    assert_eq!(get_source_link_layer_option::<Mac>(&vec![NdpOption::Mtu(1280)]), None);
    assert_eq!(get_target_link_layer_option::<Mac>(&vec![]), None);
}

#[test]
fn timers_know_their_device() {
    assert_eq!(NdpTimerId::new_router_solicitation(7).get_device_id(), 7);
    assert_eq!(
        NdpTimerId::new_prefix_invalidation(3, Subnet::new(ip(PREFIX), 64).unwrap())
            .get_device_id(),
        3
    );
}
