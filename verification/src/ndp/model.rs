//! What neighbor discovery does, as functions from the state of a device to its next state.

use crate::ndp::packet::{
    Counter, LinkOption, NdpAction, NdpMessage, NdpOption, NdpPacket, NeighborAdvertisement,
    PrefixInformation, RouterAdvertisement, INFINITE_LIFETIME, MINIMUM_LINK_MTU,
    REQUIRED_NDP_IP_PACKET_HOP_LIMIT,
};
use crate::ndp::state::{
    redrawn, with_address, with_link_address, with_router_flag, AddrConfig, AddressState,
    Ipv6AddressEntry, NeighborEntryState, NeighborState,
};
use crate::ndp::timer::{InnerNdpTimerId, NdpTimerId};
use crate::net::addr::{
    be_value, AddrSubnet, Ipv6Addr, Ipv6SourceAddr, Subnet,
    ALL_NODES_LINK_LOCAL_MULTICAST_ADDRESS, ALL_ROUTERS_LINK_LOCAL_MULTICAST_ADDRESS,
    UNSPECIFIED_ADDRESS,
};
use crate::net::link::LinkAddress;
use crate::net::time::{Duration, Instant};
use vstd::prelude::*;

verus! {

/// The greatest number of solicitations of a neighbor (RFC 4861, section 10).
pub const MAX_MULTICAST_SOLICIT: u8 = 3;

/// The seconds between two router solicitations (RFC 4861, section 10).
pub const RTR_SOLICITATION_INTERVAL: u64 = 4;

/// The first router solicitation is sent within this many seconds (RFC 4861, section 10).
pub const MAX_RTR_SOLICITATION_DELAY: u64 = 1;

/// An address's valid lifetime is not cut to less than this many seconds: two hours.
pub const MIN_PREFIX_VALID_LIFETIME_FOR_UPDATE: u64 = 7200;

/// The length of a prefix from which an address can be formed: an interface identifier has 64 bits.
pub const REQUIRED_PREFIX_BITS: u8 = 64;

/// The state of a device.
#[verifier::ext_equal]
pub struct NdpView<H> {
    pub device_id: u64,
    pub link_addr: H,
    /// The interface identifier.
    pub iid: Seq<u8>,
    /// The node is a router.
    pub is_router: bool,
    /// The device routes packets, if the node is a router.
    pub routing_enabled: bool,
    /// The state of a new autoconfigured address.
    pub initial_state: AddressState,
    pub now: Instant,
    pub neighbors: Map<Ipv6Addr, NeighborState<H>>,
    pub default_routers: Set<Ipv6Addr>,
    pub on_link_prefixes: Set<Subnet>,
    pub solicitations_remaining: u8,
    pub base_reachable_time: Duration,
    pub reachable_time: Duration,
    pub retrans_timer: Duration,
    /// The configured number of router solicitations.
    pub solicitation_limit: u8,
    pub addrs: Seq<Ipv6AddressEntry>,
    pub default_hop_limit: u8,
    pub timers: Map<NdpTimerId, Instant>,
    /// What the device layer has been told to do.
    pub actions: Seq<NdpAction<H>>,
}

/// The place of the first entry that meets a condition.
pub open spec fn first_where(
    s: Seq<Ipv6AddressEntry>,
    p: spec_fn(Ipv6AddressEntry) -> bool,
) -> Option<int>
    decreases s.len(),
{
    if s.len() == 0 {
        None
    } else if p(s[0]) {
        Some(0)
    } else {
        match first_where(s.drop_first(), p) {
            Some(i) => Some(i + 1),
            None => None,
        }
    }
}

/// The first entry that meets a condition is one that does, and none before it does.
pub proof fn lemma_first_where(
    s: Seq<Ipv6AddressEntry>,
    p: spec_fn(Ipv6AddressEntry) -> bool,
)
    ensures
        match first_where(s, p) {
            Some(i) => 0 <= i < s.len() && p(s[i]) && forall|j: int| 0 <= j < i ==> !p(s[j]),
            None => forall|j: int| 0 <= j < s.len() ==> !p(s[j]),
        },
    decreases s.len(),
{
    if s.len() > 0 && !p(s[0]) {
        let rest = s.drop_first();
        lemma_first_where(rest, p);
        match first_where(rest, p) {
            Some(i) => {
                assert forall|j: int| 0 <= j < i + 1 implies !p(s[j]) by {
                    if j > 0 {
                        assert(s[j] == rest[j - 1]);
                    }
                }
            },
            None => {
                assert forall|j: int| 0 <= j < s.len() implies !p(s[j]) by {
                    if j > 0 {
                        assert(s[j] == rest[j - 1]);
                    }
                }
            },
        }
    }
}

/// The first entry that meets a condition is known by that.
pub proof fn lemma_first_is(
    s: Seq<Ipv6AddressEntry>,
    p: spec_fn(Ipv6AddressEntry) -> bool,
    i: int,
)
    requires
        0 <= i <= s.len(),
        i < s.len() ==> p(s[i]),
        forall|j: int| 0 <= j < i ==> !p(s[j]),
    ensures
        first_where(s, p) == if i < s.len() {
            Some(i)
        } else {
            None
        },
{
    lemma_first_where(s, p);
}

/// The address is known to be unique.
pub open spec fn usable(entry: Ipv6AddressEntry) -> bool {
    entry.state !is Tentative
}

/// An address with global scope that is known to be unique.
pub open spec fn usable_global(entry: Ipv6AddressEntry) -> bool {
    usable(entry) && entry.addr_sub.addr.global()
}

/// A link-local address that is known to be unique.
pub open spec fn usable_link_local(entry: Ipv6AddressEntry) -> bool {
    usable(entry) && entry.addr_sub.addr.link_local()
}

/// The place of an address among the device's.
pub open spec fn find_addr(addrs: Seq<Ipv6AddressEntry>, addr: Ipv6Addr) -> Option<int> {
    first_where(addrs, |e: Ipv6AddressEntry| e.addr_sub.addr == addr)
}

/// The place of the global address that was autoconfigured for a subnet.
pub open spec fn find_slaac(addrs: Seq<Ipv6AddressEntry>, subnet: Subnet) -> Option<int> {
    first_where(
        addrs,
        |e: Ipv6AddressEntry|
            e.addr_sub.addr.global() && e.addr_sub.subnet == subnet && e.config is Slaac,
    )
}

/// The address that packets are sent from: a global one if there is one, or else a link-local one.
pub open spec fn source_addr(addrs: Seq<Ipv6AddressEntry>) -> Option<Ipv6Addr> {
    match first_where(addrs, |e: Ipv6AddressEntry| usable_global(e)) {
        Some(i) => Some(addrs[i].addr_sub.addr),
        None => match first_where(addrs, |e: Ipv6AddressEntry| usable_link_local(e)) {
            Some(i) => Some(addrs[i].addr_sub.addr),
            None => None,
        },
    }
}

/// The link address in the first option of its kind that is long enough.
pub open spec fn link_option<H: LinkAddress>(options: Seq<NdpOption>, source: bool) -> Option<H>
    decreases options.len(),
{
    if options.len() == 0 {
        None
    } else {
        let bytes: Option<Seq<u8>> = match options[0] {
            NdpOption::SourceLinkLayerAddress(a) => if source {
                Some(a@)
            } else {
                None
            },
            NdpOption::TargetLinkLayerAddress(a) => if source {
                None
            } else {
                Some(a@)
            },
            _ => None,
        };
        match bytes {
            Some(b) => if b.len() >= H::length() {
                Some(H::of_bytes(b.take(H::length() as int)))
            } else {
                link_option(options.drop_first(), source)
            },
            None => link_option(options.drop_first(), source),
        }
    }
}

/// The subnet that a prefix option names.
pub open spec fn prefix_subnet(p: PrefixInformation) -> Subnet {
    Subnet { network: p.prefix, prefix: p.prefix_length }
}

/// When an autoconfigured address becomes invalid after an advertisement; nothing means that this
/// does not change. The time that is left is never cut to less than two hours, or to less than it
/// is if it is less already (RFC 4862, section 5.5.3.e).
pub open spec fn new_valid_until(now: Instant, old_until: Instant, valid_for: Duration) -> Option<
    Instant,
> {
    let two_hours = Duration::of_secs(MIN_PREFIX_VALID_LIFETIME_FOR_UPDATE);
    let remaining = old_until.nanos - now.nanos;
    if valid_for.nanos > two_hours.nanos || remaining < 0 || remaining < valid_for.nanos {
        Some(now.after(valid_for))
    } else if remaining <= two_hours.nanos {
        None
    } else {
        Some(now.after(two_hours))
    }
}

/// The address that a prefix and an interface identifier form.
pub open spec fn global_address(prefix: Subnet, iid: Seq<u8>) -> AddrSubnet {
    AddrSubnet {
        addr: Ipv6Addr { bits: (prefix.network.bits + be_value(iid)) as u128 },
        subnet: prefix,
    }
}

/// A number that may be drawn for a message: less than the base for the reachable time, if the
/// message gives one.
pub open spec fn draw_ok(packet: NdpPacket, draw: Duration) -> bool {
    packet matches NdpPacket::RouterAdvertisement { message, options } ==> (message.reachable_time
        > 0 ==> draw.nanos < Duration::of_millis(message.reachable_time as u64).nanos)
}

/// A complete neighbor entry once an advertisement came (RFC 4861, section 7.2.5).
pub open spec fn advertised<H>(
    n: NeighborState<H>,
    m: NeighborAdvertisement,
    target: Option<H>,
) -> NeighborState<H> {
    let is_new = target is Some && n.link_address != target;
    if m.override_flag || !is_new {
        NeighborState {
            is_router: m.router_flag,
            state: if m.solicited_flag {
                NeighborEntryState::Reachable
            } else if is_new {
                NeighborEntryState::Stale
            } else {
                n.state
            },
            link_address: if is_new {
                target
            } else {
                n.link_address
            },
        }
    } else if n.state is Reachable {
        NeighborState { state: NeighborEntryState::Stale, ..n }
    } else {
        n
    }
}

impl<H: LinkAddress> NdpView<H> {
    pub open spec fn timer(self, inner: InnerNdpTimerId) -> NdpTimerId {
        NdpTimerId { device_id: self.device_id, inner }
    }

    pub open spec fn has_timer(self, inner: InnerNdpTimerId) -> bool {
        self.timers.dom().contains(self.timer(inner))
    }

    /// The device routes packets.
    pub open spec fn is_router_device(self) -> bool {
        self.is_router && self.routing_enabled
    }

    pub open spec fn schedule_at(self, inner: InnerNdpTimerId, at: Instant) -> Self {
        NdpView { timers: self.timers.insert(self.timer(inner), at), ..self }
    }

    pub open spec fn schedule(self, inner: InnerNdpTimerId, after: Duration) -> Self {
        self.schedule_at(inner, self.now.after(after))
    }

    pub open spec fn cancel(self, inner: InnerNdpTimerId) -> Self {
        NdpView { timers: self.timers.remove(self.timer(inner)), ..self }
    }

    pub open spec fn act(self, action: NdpAction<H>) -> Self {
        NdpView { actions: self.actions.push(action), ..self }
    }

    pub open spec fn count(self, counter: Counter) -> Self {
        self.act(NdpAction::Count(counter))
    }

    /// Sends a message.
    pub open spec fn send(
        self,
        src_ip: Ipv6Addr,
        dst_ip: Ipv6Addr,
        message: NdpMessage,
        option: Option<LinkOption<H>>,
    ) -> Self {
        self.act(
            NdpAction::Send {
                src_ip,
                dst_ip,
                hop_limit: REQUIRED_NDP_IP_PACKET_HOP_LIMIT,
                message,
                option,
            },
        )
    }

    // -- Address resolution --

    /// Solicits a neighbor, if there is an address to do so from.
    pub open spec fn solicit_neighbor(self, target_address: Ipv6Addr) -> Self {
        match source_addr(self.addrs) {
            Some(src_ip) => self.send(
                src_ip,
                target_address.solicited_node(),
                NdpMessage::NeighborSolicitation { target_address },
                Some(LinkOption::SourceLinkLayerAddress(self.link_addr)),
            ),
            None => self,
        }
    }

    /// Answers a solicitation, or tells all nodes.
    pub open spec fn advertise(self, solicited: bool, target: Ipv6Addr, dst_ip: Ipv6Addr) -> Self {
        self.send(
            target,
            dst_ip,
            NdpMessage::NeighborAdvertisement(
                NeighborAdvertisement {
                    router_flag: self.is_router_device(),
                    solicited_flag: solicited,
                    override_flag: false,
                    target_address: target,
                },
            ),
            Some(LinkOption::TargetLinkLayerAddress(self.link_addr)),
        )
    }

    /// A look-up of a neighbor that is not known starts its resolution; no other changes anything.
    pub open spec fn lookup(self, addr: Ipv6Addr) -> Self {
        if self.neighbors.dom().contains(addr) {
            self
        } else {
            NdpView {
                neighbors: self.neighbors.insert(addr, NeighborState::fresh(1)),
                ..self
            }.solicit_neighbor(addr).schedule(
                InnerNdpTimerId::LinkAddressResolution { neighbor_addr: addr },
                self.retrans_timer,
            )
        }
    }

    /// What a look-up gives.
    pub open spec fn lookup_result(self, addr: Ipv6Addr) -> Option<H> {
        if self.neighbors.dom().contains(addr) {
            self.neighbors[addr].link_address
        } else {
            None
        }
    }

    /// A neighbor did not answer in time: it is solicited again, or given up.
    pub open spec fn resolution_timeout(self, addr: Ipv6Addr) -> Self {
        let n = self.neighbors[addr];
        let sent = n.state->transmit_counter;
        if sent < MAX_MULTICAST_SOLICIT {
            let state = NeighborEntryState::Incomplete { transmit_counter: (sent + 1) as u8 };
            NdpView {
                neighbors: self.neighbors.insert(addr, NeighborState { state, ..n }),
                ..self
            }.solicit_neighbor(addr).schedule(
                InnerNdpTimerId::LinkAddressResolution { neighbor_addr: addr },
                self.retrans_timer,
            )
        } else {
            NdpView { neighbors: self.neighbors.remove(addr), ..self }.count(
                Counter::NeighborSolicitationTimer,
            ).act(NdpAction::AddressResolutionFailed { address: addr })
        }
    }

    // -- Router discovery --

    /// Starts to look for routers, the first time after `delay`.
    pub open spec fn start_soliciting(self, delay: Duration) -> Self {
        if self.solicitation_limit == 0 {
            self
        } else {
            NdpView { solicitations_remaining: self.solicitation_limit, ..self }.schedule(
                InnerNdpTimerId::RouterSolicitationTransmit,
                delay,
            )
        }
    }

    /// Looks for routers no more.
    pub open spec fn stop_soliciting(self) -> Self {
        NdpView { solicitations_remaining: 0, ..self }.cancel(
            InnerNdpTimerId::RouterSolicitationTransmit,
        )
    }

    /// Solicits routers from an address; without one, the link address is left out (RFC 4861,
    /// section 4.1).
    pub open spec fn solicit_routers(self, src_ip: Option<Ipv6Addr>) -> Self {
        let dst_ip = Ipv6Addr { bits: ALL_ROUTERS_LINK_LOCAL_MULTICAST_ADDRESS };
        match src_ip {
            Some(src_ip) => self.send(
                src_ip,
                dst_ip,
                NdpMessage::RouterSolicitation,
                Some(LinkOption::SourceLinkLayerAddress(self.link_addr)),
            ),
            None => self.send(
                Ipv6Addr { bits: UNSPECIFIED_ADDRESS },
                dst_ip,
                NdpMessage::RouterSolicitation,
                None,
            ),
        }
    }

    /// Solicits routers once, and later again if solicitations are left.
    pub open spec fn do_solicitation(self) -> Self {
        let remaining = (self.solicitations_remaining - 1) as u8;
        let sent = NdpView { solicitations_remaining: remaining, ..self }.solicit_routers(
            source_addr(self.addrs),
        );
        if remaining == 0 {
            sent
        } else {
            sent.schedule(
                InnerNdpTimerId::RouterSolicitationTransmit,
                Duration::of_secs(RTR_SOLICITATION_INTERVAL),
            )
        }
    }

    /// A router is a default router no more.
    pub open spec fn drop_router(self, ip: Ipv6Addr) -> Self {
        NdpView {
            default_routers: self.default_routers.remove(ip),
            neighbors: with_router_flag(self.neighbors, ip, false),
            ..self
        }
    }

    /// A prefix is on the link no more.
    pub open spec fn drop_prefix(self, subnet: Subnet) -> Self {
        NdpView { on_link_prefixes: self.on_link_prefixes.remove(subnet), ..self }
    }

    /// A router offers itself for a time, or withdraws (RFC 4861, section 6.3.4).
    pub open spec fn heard_router(self, ip: Ipv6Addr, lifetime: u16) -> Self {
        if lifetime > 0 {
            NdpView { default_routers: self.default_routers.insert(ip), ..self }.schedule(
                InnerNdpTimerId::RouterInvalidation { ip },
                Duration::of_secs(lifetime as u64),
            )
        } else if self.default_routers.contains(ip) {
            self.drop_router(ip).cancel(InnerNdpTimerId::RouterInvalidation { ip })
        } else {
            self
        }
    }

    /// The parameters of an advertisement, where they are specified (RFC 4861, section 6.3.4).
    pub open spec fn heard_parameters(self, ra: RouterAdvertisement, draw: Duration) -> Self {
        let base = Duration::of_millis(ra.reachable_time as u64);
        NdpView {
            base_reachable_time: if ra.reachable_time == 0 {
                self.base_reachable_time
            } else {
                base
            },
            reachable_time: if ra.reachable_time == 0 {
                self.reachable_time
            } else {
                redrawn(self.base_reachable_time, self.reachable_time, base, draw)
            },
            retrans_timer: if ra.retransmit_timer == 0 {
                self.retrans_timer
            } else {
                Duration::of_millis(ra.retransmit_timer as u64)
            },
            default_hop_limit: if ra.current_hop_limit == 0 {
                self.default_hop_limit
            } else {
                ra.current_hop_limit
            },
            ..self
        }
    }

    /// A prefix is on the link for a time, forever, or no more (RFC 4861, section 6.3.4).
    pub open spec fn heard_on_link(self, subnet: Subnet, valid_lifetime: u32) -> Self {
        let inner = InnerNdpTimerId::PrefixInvalidation { subnet };
        if valid_lifetime > 0 {
            let added = NdpView { on_link_prefixes: self.on_link_prefixes.insert(subnet), ..self };
            if valid_lifetime == INFINITE_LIFETIME {
                added.cancel(inner)
            } else {
                added.schedule(inner, Duration::of_secs(valid_lifetime as u64))
            }
        } else if self.on_link_prefixes.contains(subnet) {
            self.cancel(inner).drop_prefix(subnet)
        } else {
            self
        }
    }

    // -- Address autoconfiguration --

    /// An autoconfigured address goes, with its timers.
    pub open spec fn invalidate_slaac(self, addr: Ipv6Addr) -> Self {
        let i = find_addr(self.addrs, addr)->0;
        NdpView { addrs: self.addrs.remove(i), ..self }.cancel(
            InnerNdpTimerId::DeprecateSlaacAddress { addr },
        ).cancel(InnerNdpTimerId::InvalidateSlaacAddress { addr }).act(
            NdpAction::AddressRemoved { addr },
        )
    }

    /// An autoconfigured address is preferred no more. If it is tentative it goes: nothing uses it
    /// yet, and nothing new should.
    pub open spec fn deprecate_slaac(self, addr: Ipv6Addr) -> Self {
        let i = find_addr(self.addrs, addr)->0;
        let entry = self.addrs[i];
        if entry.state is Tentative {
            self.invalidate_slaac(addr)
        } else {
            NdpView {
                addrs: self.addrs.update(
                    i,
                    Ipv6AddressEntry { state: AddressState::Deprecated, ..entry },
                ),
                ..self
            }
        }
    }

    /// The preferred lifetime of the address at a place is set.
    pub open spec fn update_preferred(self, i: int, preferred_lifetime: u32) -> Self {
        let entry = self.addrs[i];
        let addr = entry.addr_sub.addr;
        let inner = InnerNdpTimerId::DeprecateSlaacAddress { addr };
        if preferred_lifetime > 0 {
            let state = if entry.state is Deprecated {
                AddressState::Assigned
            } else {
                entry.state
            };
            NdpView {
                addrs: self.addrs.update(i, Ipv6AddressEntry { state, ..entry }),
                ..self
            }.schedule(inner, Duration::of_secs(preferred_lifetime as u64))
        } else if entry.state !is Deprecated {
            self.deprecate_slaac(addr).cancel(inner)
        } else {
            self
        }
    }

    /// The entry of an address says that it becomes invalid at the given instant.
    pub open spec fn with_valid_until(self, addr: Ipv6Addr, until: Instant) -> Self {
        let i = find_addr(self.addrs, addr)->0;
        NdpView {
            addrs: self.addrs.update(
                i,
                Ipv6AddressEntry {
                    config: AddrConfig::Slaac { valid_until: Some(until) },
                    ..self.addrs[i]
                },
            ),
            ..self
        }
    }

    /// An address becomes invalid at the given instant.
    pub open spec fn set_valid_until(self, addr: Ipv6Addr, until: Instant) -> Self {
        self.with_valid_until(addr, until).schedule_at(
            InnerNdpTimerId::InvalidateSlaacAddress { addr },
            until,
        )
    }

    /// The valid lifetime of an address is set, as far as it may be.
    pub open spec fn update_valid(self, addr: Ipv6Addr, old_until: Instant, valid: u32) -> Self {
        match new_valid_until(self.now, old_until, Duration::of_secs(valid as u64)) {
            Some(until) => self.set_valid_until(addr, until),
            None => self,
        }
    }

    /// A device gets an address from a prefix.
    pub open spec fn add_slaac(self, address: AddrSubnet, valid: u32) -> Self {
        let until = self.now.after(Duration::of_secs(valid as u64));
        NdpView {
            addrs: self.addrs.push(
                Ipv6AddressEntry {
                    addr_sub: address,
                    state: self.initial_state,
                    config: AddrConfig::Slaac { valid_until: Some(until) },
                },
            ),
            ..self
        }.act(
            NdpAction::AddressAdded { addr: address.addr, prefix: address.subnet.prefix },
        ).schedule_at(InnerNdpTimerId::InvalidateSlaacAddress { addr: address.addr }, until)
    }

    /// The preferred lifetime of a new address is set.
    pub open spec fn first_preferred(self, addr: Ipv6Addr, preferred: u32) -> Self {
        let inner = InnerNdpTimerId::DeprecateSlaacAddress { addr };
        if preferred > 0 {
            self.schedule(inner, Duration::of_secs(preferred as u64))
        } else {
            self.deprecate_slaac(addr).cancel(inner)
        }
    }

    /// A prefix that may be used for autoconfiguration (RFC 4862, section 5.5.3).
    pub open spec fn slaac_update(self, p: PrefixInformation) -> Self {
        let subnet = prefix_subnet(p);
        if p.preferred_lifetime > p.valid_lifetime || !subnet.wf() {
            self
        } else {
            match find_slaac(self.addrs, subnet) {
                Some(i) => {
                    let entry = self.addrs[i];
                    self.update_preferred(i, p.preferred_lifetime).update_valid(
                        entry.addr_sub.addr,
                        entry.config->valid_until->0,
                        p.valid_lifetime,
                    )
                },
                None => {
                    let address = global_address(subnet, self.iid);
                    if p.valid_lifetime == 0 || subnet.prefix != REQUIRED_PREFIX_BITS
                        || find_addr(self.addrs, address.addr) is Some {
                        self
                    } else {
                        self.add_slaac(address, p.valid_lifetime).first_preferred(
                            address.addr,
                            p.preferred_lifetime,
                        )
                    }
                },
            }
        }
    }

    // -- Messages --

    /// A prefix option of an advertisement.
    pub open spec fn heard_prefix(self, p: PrefixInformation) -> Self {
        let subnet = prefix_subnet(p);
        if !subnet.wf() || !subnet.network.unicast() || p.prefix.link_local() {
            self
        } else {
            let on_link = if p.on_link_flag {
                self.heard_on_link(subnet, p.valid_lifetime)
            } else {
                self
            };
            if p.autonomous_address_configuration_flag {
                on_link.slaac_update(p)
            } else {
                on_link
            }
        }
    }

    /// An option of an advertisement.
    pub open spec fn heard_option(self, src_ip: Ipv6Addr, option: NdpOption) -> Self {
        match option {
            NdpOption::SourceLinkLayerAddress(a) => NdpView {
                neighbors: with_link_address(
                    self.neighbors,
                    src_ip,
                    H::of_bytes(a@.take(H::length() as int)),
                    false,
                ),
                ..self
            },
            NdpOption::Mtu(mtu) => if mtu >= MINIMUM_LINK_MTU {
                self.act(NdpAction::SetMtu { mtu })
            } else {
                self
            },
            NdpOption::PrefixInformation(p) => self.heard_prefix(p),
            _ => self,
        }
    }

    /// The options of an advertisement, one after the other.
    pub open spec fn heard_options(self, src_ip: Ipv6Addr, options: Seq<NdpOption>) -> Self
        decreases options.len(),
    {
        if options.len() == 0 {
            self
        } else {
            self.heard_options(src_ip, options.drop_last()).heard_option(src_ip, options.last())
        }
    }

    /// A Router Advertisement from a link-local address, but for its options.
    pub open spec fn heard_advertiser(
        self,
        src_ip: Ipv6Addr,
        ra: RouterAdvertisement,
        draw: Duration,
    ) -> Self {
        self.count(Counter::RxRouterAdvertisement).heard_router(
            src_ip,
            ra.router_lifetime,
        ).heard_parameters(ra, draw)
    }

    /// A Router Advertisement from a link-local address. A router pays no heed to it.
    pub open spec fn receive_ra(
        self,
        src_ip: Ipv6Addr,
        ra: RouterAdvertisement,
        options: Seq<NdpOption>,
        draw: Duration,
    ) -> Self {
        if self.is_router_device() {
            self.count(Counter::RxRouterAdvertisement)
        } else {
            let heard = self.heard_advertiser(src_ip, ra, draw).heard_options(src_ip, options);
            NdpView { neighbors: with_router_flag(heard.neighbors, src_ip, true), ..heard }
        }
    }

    /// A Neighbor Solicitation for a unicast address.
    pub open spec fn receive_ns(
        self,
        src_ip: Ipv6SourceAddr,
        target: Ipv6Addr,
        options: Seq<NdpOption>,
    ) -> Self {
        match find_addr(self.addrs, target) {
            None => self,
            Some(i) => if self.addrs[i].state is Tentative {
                if src_ip is Unspecified {
                    self.act(NdpAction::DuplicateAddressDetected { addr: target })
                } else {
                    self
                }
            } else {
                let counted = self.count(Counter::RxNeighborSolicitation);
                match src_ip {
                    Ipv6SourceAddr::Unicast(src) => {
                        let learned = match link_option::<H>(options, true) {
                            Some(ll) => NdpView {
                                neighbors: with_link_address(counted.neighbors, src, ll, false),
                                ..counted
                            },
                            None => counted,
                        };
                        learned.advertise(true, target, src)
                    },
                    Ipv6SourceAddr::Unspecified => counted.advertise(
                        false,
                        target,
                        Ipv6Addr { bits: ALL_NODES_LINK_LOCAL_MULTICAST_ADDRESS },
                    ),
                }
            },
        }
    }

    /// A Neighbor Advertisement for an address that is not the device's.
    pub open spec fn neighbor_advertised(
        self,
        src: Ipv6Addr,
        m: NeighborAdvertisement,
        target: Option<H>,
    ) -> Self {
        if !self.neighbors.dom().contains(src) {
            self
        } else {
            let n = self.neighbors[src];
            if n.state is Incomplete {
                match target {
                    None => self,
                    Some(ll) => NdpView {
                        neighbors: self.neighbors.insert(
                            src,
                            with_address(
                                NeighborState { is_router: m.router_flag, ..n },
                                ll,
                                m.solicited_flag,
                            ),
                        ),
                        ..self
                    }.cancel(InnerNdpTimerId::LinkAddressResolution { neighbor_addr: src }).act(
                        NdpAction::AddressResolved { address: src, link_address: ll },
                    ),
                }
            } else {
                let next = advertised(n, m, target);
                NdpView {
                    neighbors: self.neighbors.insert(src, next),
                    default_routers: if n.is_router && !next.is_router && src.link_local() {
                        self.default_routers.remove(src)
                    } else {
                        self.default_routers
                    },
                    ..self
                }
            }
        }
    }

    /// A Neighbor Advertisement from a unicast address for a unicast address.
    pub open spec fn receive_na(
        self,
        src: Ipv6Addr,
        m: NeighborAdvertisement,
        options: Seq<NdpOption>,
    ) -> Self {
        match find_addr(self.addrs, m.target_address) {
            Some(i) => if self.addrs[i].state is Tentative {
                self.act(NdpAction::DuplicateAddressDetected { addr: m.target_address })
            } else {
                self
            },
            None => self.count(Counter::RxNeighborAdvertisement).neighbor_advertised(
                src,
                m,
                link_option::<H>(options, false),
            ),
        }
    }

    /// Any message.
    pub open spec fn receive(
        self,
        src_ip: Ipv6SourceAddr,
        packet: NdpPacket,
        draw: Duration,
    ) -> Self {
        match packet {
            NdpPacket::RouterSolicitation => self,
            NdpPacket::RouterAdvertisement { message, options } => match src_ip {
                Ipv6SourceAddr::Unicast(src) => if src.link_local() {
                    self.receive_ra(src, message, options@, draw)
                } else {
                    self
                },
                Ipv6SourceAddr::Unspecified => self,
            },
            NdpPacket::NeighborSolicitation { target_address, options } => if target_address.unicast() {
                self.receive_ns(src_ip, target_address, options@)
            } else {
                self
            },
            NdpPacket::NeighborAdvertisement { message, options } => match src_ip {
                Ipv6SourceAddr::Unicast(src) => if message.target_address.unicast() {
                    self.receive_na(src, message, options@)
                } else {
                    self
                },
                Ipv6SourceAddr::Unspecified => self,
            },
            NdpPacket::Redirect => self,
        }
    }

    /// A timer fires: it is scheduled no more, and what it stands for happens.
    pub open spec fn fire(self, inner: InnerNdpTimerId) -> Self {
        let v = self.cancel(inner);
        match inner {
            InnerNdpTimerId::LinkAddressResolution { neighbor_addr } => v.resolution_timeout(
                neighbor_addr,
            ),
            InnerNdpTimerId::RouterSolicitationTransmit => v.do_solicitation(),
            InnerNdpTimerId::RouterInvalidation { ip } => v.drop_router(ip),
            InnerNdpTimerId::PrefixInvalidation { subnet } => v.drop_prefix(subnet),
            InnerNdpTimerId::DeprecateSlaacAddress { addr } => v.deprecate_slaac(addr),
            InnerNdpTimerId::InvalidateSlaacAddress { addr } => v.invalidate_slaac(addr),
        }
    }

    /// No timer of the device is left.
    pub open spec fn without_timers_of(self, device_id: u64) -> Self {
        NdpView {
            timers: self.timers.restrict(
                Set::new(
                    |id: NdpTimerId|
                        self.timers.dom().contains(id) && id.device_id != device_id,
                ),
            ),
            ..self
        }
    }
}

} // verus!
