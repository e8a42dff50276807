//! The operations of neighbor discovery.

use crate::math::{lemma_pow2_128, lemma_pow2_grows};
use crate::ndp::config::NdpConfiguration;
use crate::ndp::context::NdpContext;
use crate::ndp::model::{
    advertised, draw_ok, find_slaac, global_address, lemma_first_is, link_option, new_valid_until,
    prefix_subnet, source_addr, NdpView, MAX_MULTICAST_SOLICIT,
    MAX_RTR_SOLICITATION_DELAY, MIN_PREFIX_VALID_LIFETIME_FOR_UPDATE, REQUIRED_PREFIX_BITS,
    RTR_SOLICITATION_INTERVAL,
};
use crate::ndp::packet::{
    Counter, LinkOption, NdpAction, NdpMessage, NdpOption, NdpPacket, NeighborAdvertisement,
    PrefixInformation, RouterAdvertisement, INFINITE_LIFETIME, MINIMUM_LINK_MTU,
    REQUIRED_NDP_IP_PACKET_HOP_LIMIT,
};
use crate::ndp::safety::{
    lemma_address_in_subnet, lemma_find_addr, lemma_find_slaac, lemma_source_addr,
};
use crate::ndp::state::{
    same_address, with_link_address, AddrConfig, AddressState, Ipv6AddressEntry,
    NeighborEntryState, NeighborState,
};
use crate::ndp::timer::{InnerNdpTimerId, NdpTimerId};
use crate::net::addr::{
    be_value, lemma_be_value_bound, AddrSubnet, Ipv6Addr, Ipv6SourceAddr, Subnet,
    ALL_NODES_LINK_LOCAL_MULTICAST_ADDRESS, ALL_ROUTERS_LINK_LOCAL_MULTICAST_ADDRESS,
    UNSPECIFIED_ADDRESS,
};
use crate::net::link::LinkAddress;
use crate::net::num::NonZeroU8;
use crate::net::time::{Duration, Instant};
use crate::random::draw_below;
use vstd::prelude::*;

verus! {

/// Cancels all timers of a device that is going away.
pub fn deinitialize<H: LinkAddress>(ctx: &mut NdpContext<H>, device_id: u64)
    ensures
        final(ctx)@ == old(ctx)@.without_timers_of(device_id),
{
    ctx.cancel_timers_of(device_id);
}

/// The time between solicitations of a neighbor.
pub fn retrans_timer<H: LinkAddress>(ctx: &NdpContext<H>) -> (result: Duration)
    ensures
        result == ctx@.retrans_timer,
{
    ctx.state.get_retrans_timer()
}

/// Sets the configuration. It takes effect the next time that routers are solicited.
pub fn set_ndp_configuration<H: LinkAddress>(ctx: &mut NdpContext<H>, config: NdpConfiguration)
    requires
        old(ctx)@.inv(),
    ensures
        final(ctx)@ == (NdpView { solicitation_limit: config.limit(), ..old(ctx)@ }),
        final(ctx)@.inv(),
{
    let _ = config.get_max_router_solicitations();
    ctx.state.config = config;
    proof {
        old(ctx)@.configuration_keeps_inv(config.limit());
    }
}

// -- Sending --

/// Has a packet sent.
pub fn send_ndp_packet<H: LinkAddress>(
    ctx: &mut NdpContext<H>,
    src_ip: Ipv6Addr,
    dst_ip: Ipv6Addr,
    message: NdpMessage,
    option: Option<LinkOption<H>>,
)
    ensures
        final(ctx)@ == old(ctx)@.send(src_ip, dst_ip, message, option),
{
    ctx.act(
        NdpAction::Send {
            src_ip,
            dst_ip,
            hop_limit: REQUIRED_NDP_IP_PACKET_HOP_LIMIT,
            message,
            option,
        },
    );
}

/// Has a router solicitation sent. Only a device that does not operate as a router may do so.
pub fn send_router_solicitation<H: LinkAddress>(
    ctx: &mut NdpContext<H>,
    src_ip: Option<Ipv6Addr>,
)
    requires
        !old(ctx)@.is_router_device(),
    ensures
        final(ctx)@ == old(ctx)@.solicit_routers(src_ip),
{
    let dst_ip = Ipv6Addr { bits: ALL_ROUTERS_LINK_LOCAL_MULTICAST_ADDRESS };
    match src_ip {
        Some(src_ip) => {
            let option = Some(LinkOption::SourceLinkLayerAddress(ctx.link_addr));
            send_ndp_packet(ctx, src_ip, dst_ip, NdpMessage::RouterSolicitation, option);
        },
        None => {
            let src_ip = Ipv6Addr { bits: UNSPECIFIED_ADDRESS };
            send_ndp_packet(ctx, src_ip, dst_ip, NdpMessage::RouterSolicitation, None);
        },
    }
}

/// Has a neighbor solicitation sent, if the device has an address to send it from.
pub fn send_neighbor_solicitation<H: LinkAddress>(ctx: &mut NdpContext<H>, lookup_addr: Ipv6Addr)
    requires
        source_addr(old(ctx)@.addrs) is Some ==> source_addr(old(ctx)@.addrs)->0.valid_unicast(),
    ensures
        final(ctx)@ == old(ctx)@.solicit_neighbor(lookup_addr),
{
    if let Some(src_ip) = ctx.get_non_tentative_global_or_link_local_addr() {
        let option = Some(LinkOption::SourceLinkLayerAddress(ctx.link_addr));
        let dst_ip = lookup_addr.to_solicited_node_address();
        let message = NdpMessage::NeighborSolicitation { target_address: lookup_addr };
        send_ndp_packet(ctx, src_ip, dst_ip, message, option);
    }
}

/// Has a neighbor advertisement sent.
pub fn send_neighbor_advertisement<H: LinkAddress>(
    ctx: &mut NdpContext<H>,
    solicited: bool,
    device_addr: Ipv6Addr,
    dst_ip: Ipv6Addr,
)
    requires
        device_addr.valid_unicast(),
        dst_ip.valid_unicast() || (!solicited && dst_ip.multicast()),
    ensures
        final(ctx)@ == old(ctx)@.advertise(solicited, device_addr, dst_ip),
{
    let option = Some(LinkOption::TargetLinkLayerAddress(ctx.link_addr));
    let message = NdpMessage::NeighborAdvertisement(
        NeighborAdvertisement {
            router_flag: ctx.is_router_device(),
            solicited_flag: solicited,
            override_flag: false,
            target_address: device_addr,
        },
    );
    send_ndp_packet(ctx, device_addr, dst_ip, message, option);
}

// -- Address resolution --

/// Looks up the link address of a neighbor. Starts to resolve it if the neighbor is not known.
pub fn lookup<H: LinkAddress>(ctx: &mut NdpContext<H>, lookup_addr: Ipv6Addr) -> (result: Option<H>)
    requires
        old(ctx)@.inv(),
        old(ctx)@.clock_ok(),
        lookup_addr.unicast(),
    ensures
        result == old(ctx)@.lookup_result(lookup_addr),
        final(ctx)@ == old(ctx)@.lookup(lookup_addr),
        final(ctx)@.inv(),
{
    proof {
        ctx@.lookup_keeps_inv(lookup_addr);
        lemma_source_addr(ctx@);
    }
    match ctx.state.neighbors.get_neighbor_state(&lookup_addr) {
        Some(state) => state.link_address,
        None => {
            let retrans_timer = ctx.state.get_retrans_timer();
            ctx.state.neighbors.add_incomplete_neighbor_state(lookup_addr);
            send_neighbor_solicitation(ctx, lookup_addr);
            let _ = ctx.schedule_timer(
                retrans_timer,
                InnerNdpTimerId::LinkAddressResolution { neighbor_addr: lookup_addr },
            );
            None
        },
    }
}

/// Makes a neighbor known, and reachable.
pub fn insert_neighbor<H: LinkAddress>(ctx: &mut NdpContext<H>, net: Ipv6Addr, hw: H)
    requires
        old(ctx)@.inv(),
    ensures
        final(ctx)@ == (NdpView {
            neighbors: with_link_address(old(ctx)@.neighbors, net, hw, true),
            ..old(ctx)@
        }),
        final(ctx)@.inv(),
{
    proof {
        ctx@.lemma_link_address(net, hw, true);
    }
    ctx.state.neighbors.set_link_address(net, hw, true);
}

// -- Router solicitation --

/// Starts to solicit routers, after a delay. Does nothing if the configuration allows for none.
pub fn start_soliciting_routers_with_delay<H: LinkAddress>(
    ctx: &mut NdpContext<H>,
    delay: Duration,
)
    requires
        old(ctx)@.inv(),
        !old(ctx)@.is_router_device(),
        old(ctx)@.solicitations_remaining == 0,
        old(ctx).now.can_add(delay),
    ensures
        final(ctx)@ == old(ctx)@.start_soliciting(delay),
        final(ctx)@.inv(),
{
    proof {
        ctx@.start_soliciting_keeps_inv(delay);
    }
    if let Some(v) = ctx.state.config.get_max_router_solicitations() {
        ctx.state.router_solicitations_remaining = v.get();
        let _ = ctx.schedule_timer(delay, InnerNdpTimerId::RouterSolicitationTransmit);
    }
}

/// Starts to solicit routers, after a random delay that is less than the greatest one. Does nothing
/// if the configuration allows for none.
pub fn start_soliciting_routers<H: LinkAddress>(ctx: &mut NdpContext<H>)
    requires
        old(ctx)@.inv(),
        !old(ctx)@.is_router_device(),
        old(ctx)@.solicitations_remaining == 0,
        old(ctx)@.clock_ok(),
    ensures
        exists|delay: Duration|
            delay.nanos < Duration::of_secs(MAX_RTR_SOLICITATION_DELAY).nanos && final(ctx)@
                == #[trigger] old(ctx)@.start_soliciting(delay),
        final(ctx)@.inv(),
{
    let bound = Duration::from_secs(MAX_RTR_SOLICITATION_DELAY);
    let delay = Duration { nanos: draw_below(bound.nanos) };
    start_soliciting_routers_with_delay(ctx, delay);
}

/// Stops to solicit routers.
pub fn stop_soliciting_routers<H: LinkAddress>(ctx: &mut NdpContext<H>)
    requires
        old(ctx)@.inv(),
        !old(ctx)@.is_router_device(),
    ensures
        final(ctx)@ == old(ctx)@.stop_soliciting(),
        final(ctx)@.inv(),
{
    proof {
        ctx@.stop_soliciting_keeps_inv();
    }
    let _ = ctx.cancel_timer(InnerNdpTimerId::RouterSolicitationTransmit);
    ctx.state.router_solicitations_remaining = 0;
}

/// Solicits routers once, and sees to the next time if there is to be one.
pub fn do_router_solicitation<H: LinkAddress>(ctx: &mut NdpContext<H>)
    requires
        !old(ctx)@.is_router_device(),
        old(ctx)@.solicitations_remaining > 0,
        old(ctx)@.clock_ok(),
    ensures
        final(ctx)@ == old(ctx)@.do_solicitation(),
{
    let remaining: u8 = ctx.state.router_solicitations_remaining - 1;
    ctx.state.router_solicitations_remaining = remaining;
    let src_ip = ctx.get_non_tentative_global_or_link_local_addr();
    send_router_solicitation(ctx, src_ip);
    if remaining != 0 {
        let _ = ctx.schedule_timer(
            Duration::from_secs(RTR_SOLICITATION_INTERVAL),
            InnerNdpTimerId::RouterSolicitationTransmit,
        );
    }
}

// -- Timers --

/// Handles a timer that fires.
pub fn handle_timer<H: LinkAddress>(ctx: &mut NdpContext<H>, id: NdpTimerId)
    requires
        old(ctx)@.inv(),
        old(ctx)@.clock_ok(),
        id.device_id == old(ctx).device_id,
        old(ctx)@.fireable(id.inner),
    ensures
        final(ctx)@ == old(ctx)@.fire(id.inner),
        final(ctx)@.inv(),
{
    proof {
        ctx@.fire_keeps_inv(id.inner);
        lemma_source_addr(ctx@);
    }
    let ghost view0 = ctx@;
    let _ = ctx.cancel_timer(id.inner);
    match id.inner {
        InnerNdpTimerId::LinkAddressResolution { neighbor_addr } => {
            if let Some(mut neighbor) = ctx.state.neighbors.get_neighbor_state(&neighbor_addr) {
                if let NeighborEntryState::Incomplete { transmit_counter } = neighbor.state {
                    if transmit_counter < MAX_MULTICAST_SOLICIT {
                        let retrans_timer = ctx.state.get_retrans_timer();
                        neighbor.state = NeighborEntryState::Incomplete {
                            transmit_counter: transmit_counter + 1,
                        };
                        ctx.state.neighbors.set_neighbor_state(neighbor_addr, neighbor);
                        send_neighbor_solicitation(ctx, neighbor_addr);
                        let _ = ctx.schedule_timer(
                            retrans_timer,
                            InnerNdpTimerId::LinkAddressResolution { neighbor_addr },
                        );
                    } else {
                        ctx.state.neighbors.delete_neighbor_state(&neighbor_addr);
                        ctx.act(NdpAction::Count(Counter::NeighborSolicitationTimer));
                        ctx.act(NdpAction::AddressResolutionFailed { address: neighbor_addr });
                    }
                }
            }
        },
        InnerNdpTimerId::RouterSolicitationTransmit => {
            do_router_solicitation(ctx);
        },
        InnerNdpTimerId::RouterInvalidation { ip } => {
            ctx.state.invalidate_default_router(&ip);
        },
        InnerNdpTimerId::PrefixInvalidation { subnet } => {
            ctx.state.invalidate_prefix(subnet);
        },
        InnerNdpTimerId::DeprecateSlaacAddress { addr } => {
            proof {
                view0.preferred_is_slaac(addr);
                assert(ctx@.has_slaac(addr) == view0.has_slaac(addr));
            }
            ctx.deprecate_slaac_addr(&addr);
        },
        InnerNdpTimerId::InvalidateSlaacAddress { addr } => {
            proof {
                assert(view0.has_slaac(addr));
                assert(ctx@.has_slaac(addr) == view0.has_slaac(addr));
            }
            ctx.invalidate_slaac_addr(&addr);
        },
    }
    assert(ctx@ =~= view0.fire(id.inner));
}

/// Handles a timer that fires, and tells whether it could be handled; nothing happens otherwise.
pub fn try_handle_timer<H: LinkAddress>(ctx: &mut NdpContext<H>, id: NdpTimerId) -> (result: bool)
    requires
        old(ctx)@.inv(),
        old(ctx)@.clock_ok(),
    ensures
        result == (id.device_id == old(ctx).device_id && old(ctx)@.fireable(id.inner)),
        result ==> final(ctx)@ == old(ctx)@.fire(id.inner),
        !result ==> final(ctx)@ == old(ctx)@,
        final(ctx)@.inv(),
{
    if id.device_id != ctx.device_id || !ctx.timers.contains(&id) {
        return false;
    }
    let fireable = match id.inner {
        InnerNdpTimerId::LinkAddressResolution { neighbor_addr } => {
            match ctx.state.neighbors.get_neighbor_state(&neighbor_addr) {
                Some(neighbor) => neighbor.is_incomplete(),
                None => false,
            }
        },
        InnerNdpTimerId::RouterSolicitationTransmit => !ctx.is_router_device(),
        InnerNdpTimerId::RouterInvalidation { ip } => ctx.state.has_default_router(&ip),
        _ => true,
    };
    if fireable {
        handle_timer(ctx, id);
    }
    fireable
}

// -- Address autoconfiguration --

/// Forms an address from a prefix and an interface identifier (RFC 4862, section 5.5.3.d). The
/// prefix must be a whole number of bytes, the identifier must fill the rest, and the address must
/// be unicast.
pub fn generate_global_address(prefix: &Subnet, iid: &[u8]) -> (result: AddrSubnet)
    requires
        prefix.wf(),
        prefix.prefix % 8 == 0,
        iid@.len() == 16 - prefix.prefix / 8,
        global_address(*prefix, iid@).addr.unicast(),
    ensures
        result == global_address(*prefix, iid@),
        result.wf(),
{
    proof {
        lemma_address_in_subnet(*prefix, iid@);
    }
    let mut value: u128 = 0;
    let mut i: usize = 0;
    while i < iid.len()
        invariant
            i <= iid@.len() <= 16,
            value == be_value(iid@.take(i as int)),
        decreases iid@.len() - i,
    {
        proof {
            let next = iid@.take(i + 1);
            assert(next.drop_last() =~= iid@.take(i as int));
            assert(next.last() == iid@[i as int]);
            lemma_be_value_bound(next);
            lemma_pow2_grows(8 * next.len(), 128);
            lemma_pow2_128();
        }
        value = value * 256 + iid[i] as u128;
        i = i + 1;
    }
    assert(iid@.take(iid@.len() as int) =~= iid@);
    AddrSubnet { addr: Ipv6Addr { bits: prefix.network.bits + value }, subnet: *prefix }
}

/// The place of the global address that was autoconfigured for a subnet.
fn find_slaac_addr<H: LinkAddress>(ctx: &NdpContext<H>, subnet: &Subnet) -> (result: Option<usize>)
    ensures
        match result {
            Some(i) => find_slaac(ctx@.addrs, *subnet) == Some(i as int) && i < ctx@.addrs.len(),
            None => find_slaac(ctx@.addrs, *subnet) is None,
        },
{
    let ghost p = |e: Ipv6AddressEntry|
        e.addr_sub.addr.global() && e.addr_sub.subnet == *subnet && e.config is Slaac;
    let mut i: usize = 0;
    while i < ctx.addrs.len()
        invariant
            i <= ctx.addrs@.len(),
            p == (|e: Ipv6AddressEntry|
                e.addr_sub.addr.global() && e.addr_sub.subnet == *subnet && e.config is Slaac),
            forall|j: int| 0 <= j < i ==> !p(ctx.addrs@[j]),
        decreases ctx.addrs@.len() - i,
    {
        let entry = ctx.addrs[i];
        let is_slaac = match entry.config {
            AddrConfig::Slaac { valid_until: _ } => true,
            AddrConfig::Manual => false,
        };
        if entry.addr_sub.addr.is_global() && entry.addr_sub.subnet == *subnet && is_slaac {
            proof {
                lemma_first_is(ctx.addrs@, p, i as int);
            }
            return Some(i);
        }
        i = i + 1;
    }
    proof {
        lemma_first_is(ctx.addrs@, p, i as int);
    }
    None
}

/// When an autoconfigured address becomes invalid after an advertisement; nothing if that does not
/// change.
pub fn updated_valid_until(now: Instant, old_until: Instant, valid_for: Duration) -> (result: Option<
    Instant,
>)
    requires
        now.can_add(valid_for),
        now.can_add(Duration::of_secs(MIN_PREFIX_VALID_LIFETIME_FOR_UPDATE)),
    ensures
        result == new_valid_until(now, old_until, valid_for),
{
    let two_hours = Duration::from_secs(MIN_PREFIX_VALID_LIFETIME_FOR_UPDATE);
    let remaining_lifetime = if old_until.nanos < now.nanos {
        None
    } else {
        Some(old_until.duration_since(now))
    };
    let exceeds = match remaining_lifetime {
        Some(r) => r.nanos < valid_for.nanos,
        None => true,
    };
    if valid_for.nanos > two_hours.nanos || exceeds {
        Some(now.add_duration(valid_for))
    } else {
        let short = match remaining_lifetime {
            Some(r) => r.nanos <= two_hours.nanos,
            None => true,
        };
        if short {
            None
        } else {
            Some(now.add_duration(two_hours))
        }
    }
}

/// Adds or updates an autoconfigured address for a prefix (RFC 4862, section 5.5.3).
pub fn apply_slaac_update<H: LinkAddress>(
    ctx: &mut NdpContext<H>,
    prefix_info: &PrefixInformation,
)
    requires
        old(ctx)@.inv(),
        old(ctx)@.clock_ok(),
        old(ctx)@.slaac_ok(*prefix_info),
        old(ctx)@.formable(*prefix_info),
    ensures
        final(ctx)@ == old(ctx)@.slaac_update(*prefix_info),
        final(ctx)@.inv(),
{
    let ghost view0 = ctx@;
    proof {
        view0.slaac_update_keeps_inv(*prefix_info);
    }
    if prefix_info.preferred_lifetime > prefix_info.valid_lifetime {
        return ;
    }
    let subnet = match Subnet::new(prefix_info.prefix, prefix_info.prefix_length) {
        Ok(subnet) => subnet,
        Err(_) => {
            return ;
        },
    };
    let now = ctx.now;
    let preferred_for = Duration::from_secs(prefix_info.preferred_lifetime as u64);
    let valid_for = Duration::from_secs(prefix_info.valid_lifetime as u64);
    proof {
        lemma_find_slaac(ctx@.addrs, subnet);
    }
    match find_slaac_addr(ctx, &subnet) {
        Some(i) => {
            let mut entry = ctx.addrs[i];
            let addr = entry.addr_sub.addr;
            let ghost entry0 = entry;
            proof {
                assert(ctx@.addrs[i as int].config is Slaac);
                assert(ctx@.has_slaac(addr));
                lemma_find_addr(ctx@.addrs, addr);
            }
            let old_until = match entry.config {
                AddrConfig::Slaac { valid_until: Some(until) } => until,
                _ => now,
            };
            // The preferred lifetime becomes the one that was advertised.
            if prefix_info.preferred_lifetime > 0 {
                if entry.state.is_deprecated() {
                    entry.state = AddressState::Assigned;
                }
                ctx.addrs.set(i, entry);
                let _ = ctx.schedule_timer(
                    preferred_for,
                    InnerNdpTimerId::DeprecateSlaacAddress { addr },
                );
            } else if !entry.state.is_deprecated() {
                ctx.deprecate_slaac_addr(&addr);
                let _ = ctx.cancel_timer(InnerNdpTimerId::DeprecateSlaacAddress { addr });
            }
            assert(ctx@ =~= view0.update_preferred(i as int, prefix_info.preferred_lifetime));
            // The valid lifetime is set as far as it may be.
            if let Some(valid_until) = updated_valid_until(now, old_until, valid_for) {
                proof {
                    ctx@.lemma_entry_kept(view0, i as int);
                }
                ctx.update_slaac_addr_valid_until(&addr, valid_until);
                let _ = ctx.schedule_timer_instant(
                    valid_until,
                    InnerNdpTimerId::InvalidateSlaacAddress { addr },
                );
            }
        },
        None => {
            if prefix_info.valid_lifetime == 0 {
                return ;
            }
            if subnet.prefix != REQUIRED_PREFIX_BITS {
                return ;
            }
            let address = generate_global_address(&subnet, ctx.iid.as_slice());
            let addr = address.addr;
            let valid_until = now.add_duration(valid_for);
            if ctx.add_slaac_addr_sub(address, valid_until).is_ok() {
                let _ = ctx.schedule_timer_instant(
                    valid_until,
                    InnerNdpTimerId::InvalidateSlaacAddress { addr },
                );
                assert(ctx@ =~= view0.add_slaac(address, prefix_info.valid_lifetime));
                if prefix_info.preferred_lifetime > 0 {
                    let _ = ctx.schedule_timer(
                        preferred_for,
                        InnerNdpTimerId::DeprecateSlaacAddress { addr },
                    );
                } else {
                    proof {
                        view0.lemma_added(address, prefix_info.valid_lifetime);
                    }
                    ctx.deprecate_slaac_addr(&addr);
                    let _ = ctx.cancel_timer(InnerNdpTimerId::DeprecateSlaacAddress { addr });
                }
            }
        },
    }
}

// -- Receiving --

/// The link address in the first source or target link-layer option that is long enough.
fn get_link_layer_option<H: LinkAddress>(options: &Vec<NdpOption>, source: bool) -> (result: Option<
    H,
>)
    ensures
        result == link_option::<H>(options@, source),
{
    let mut i: usize = 0;
    assert(options@.skip(0) =~= options@);
    while i < options.len()
        invariant
            i <= options@.len(),
            link_option::<H>(options@, source) == link_option::<H>(
                options@.skip(i as int),
                source,
            ),
        decreases options@.len() - i,
    {
        proof {
            let rest = options@.skip(i as int);
            assert(rest[0] == options@[i as int]);
            assert(rest.drop_first() =~= options@.skip(i + 1));
        }
        match &options[i] {
            NdpOption::SourceLinkLayerAddress(a) => {
                if source && a.len() >= H::bytes_length() {
                    return Some(H::from_bytes(a));
                }
            },
            NdpOption::TargetLinkLayerAddress(a) => {
                if !source && a.len() >= H::bytes_length() {
                    return Some(H::from_bytes(a));
                }
            },
            _ => {},
        }
        i = i + 1;
    }
    None
}

/// The link address in the first source link-layer option that is long enough.
pub fn get_source_link_layer_option<H: LinkAddress>(options: &Vec<NdpOption>) -> (result: Option<H>)
    ensures
        result == link_option::<H>(options@, true),
{
    get_link_layer_option(options, true)
}

/// The link address in the first target link-layer option that is long enough.
pub fn get_target_link_layer_option<H: LinkAddress>(options: &Vec<NdpOption>) -> (result: Option<H>)
    ensures
        result == link_option::<H>(options@, false),
{
    get_link_layer_option(options, false)
}

/// Takes in a prefix option of an advertisement.
fn receive_prefix_information<H: LinkAddress>(ctx: &mut NdpContext<H>, p: &PrefixInformation)
    requires
        old(ctx)@.inv(),
        old(ctx)@.clock_ok(),
        old(ctx)@.option_ok(NdpOption::PrefixInformation(*p)),
    ensures
        final(ctx)@ == old(ctx)@.heard_prefix(*p),
        final(ctx)@.inv(),
{
    proof {
        ctx@.lemma_heard_on_link(prefix_subnet(*p), p.valid_lifetime);
    }
    let subnet = match Subnet::new(p.prefix, p.prefix_length) {
        Ok(subnet) => subnet,
        Err(_) => {
            return ;
        },
    };
    if !subnet.network.is_unicast() {
        return ;
    }
    if p.prefix.is_link_local() {
        return ;
    }
    let ghost view0 = ctx@;
    if p.on_link_flag {
        let timer_id = InnerNdpTimerId::PrefixInvalidation { subnet };
        if p.valid_lifetime > 0 {
            if !ctx.state.has_prefix(&subnet) {
                ctx.state.add_prefix(subnet);
            } else {
                assert(view0.on_link_prefixes.insert(subnet) =~= view0.on_link_prefixes);
            }
            if p.valid_lifetime == INFINITE_LIFETIME {
                let _ = ctx.cancel_timer(timer_id);
            } else {
                let _ = ctx.schedule_timer(Duration::from_secs(p.valid_lifetime as u64), timer_id);
            }
        } else if ctx.state.has_prefix(&subnet) {
            let _ = ctx.cancel_timer(timer_id);
            ctx.state.invalidate_prefix(subnet);
        }
        assert(ctx@ =~= view0.heard_on_link(subnet, p.valid_lifetime));
    }
    if p.autonomous_address_configuration_flag {
        proof {
            ctx@.lemma_formable(*p);
        }
        apply_slaac_update(ctx, p);
    }
}

/// Can the prefix be used for autoconfiguration?
fn is_slaac_ok<H: LinkAddress>(ctx: &NdpContext<H>, p: &PrefixInformation) -> (result: bool)
    requires
        ctx@.inv(),
        ctx@.clock_ok(),
    ensures
        result == ctx@.slaac_ok(*p),
{
    if p.preferred_lifetime > 0 {
        return true;
    }
    let subnet = Subnet { network: p.prefix, prefix: p.prefix_length };
    proof {
        lemma_find_slaac(ctx@.addrs, subnet);
    }
    match find_slaac_addr(ctx, &subnet) {
        Some(i) => {
            let entry = ctx.addrs[i];
            assert(ctx@.addrs[i as int].config is Slaac);
            match entry.config {
                AddrConfig::Slaac { valid_until: Some(until) } => {
                    let valid_for = Duration::from_secs(p.valid_lifetime as u64);
                    !entry.state.is_tentative() || updated_valid_until(
                        ctx.now,
                        until,
                        valid_for,
                    ).is_none()
                },
                _ => true,
            }
        },
        None => true,
    }
}

/// Can the option of an advertisement be processed?
fn is_option_ok<H: LinkAddress>(ctx: &NdpContext<H>, option: &NdpOption) -> (result: bool)
    requires
        ctx@.inv(),
        ctx@.clock_ok(),
    ensures
        result == ctx@.option_ok(*option),
{
    match option {
        NdpOption::SourceLinkLayerAddress(a) => a.len() >= H::bytes_length(),
        NdpOption::PrefixInformation(p) => {
            !p.autonomous_address_configuration_flag || Subnet::new(
                p.prefix,
                p.prefix_length,
            ).is_err() || !p.prefix.is_unicast() || p.prefix.is_link_local() || is_slaac_ok(ctx, p)
        },
        _ => true,
    }
}

/// Takes in an option of an advertisement.
fn receive_router_option<H: LinkAddress>(
    ctx: &mut NdpContext<H>,
    src_ip: Ipv6Addr,
    option: &NdpOption,
)
    requires
        old(ctx)@.inv(),
        old(ctx)@.clock_ok(),
        old(ctx)@.option_ok(*option),
    ensures
        final(ctx)@ == old(ctx)@.heard_option(src_ip, *option),
        final(ctx)@.inv(),
        final(ctx)@.clock_ok(),
{
    proof {
        ctx@.option_keeps_inv(src_ip, *option);
    }
    match option {
        NdpOption::SourceLinkLayerAddress(a) => {
            let link_addr = H::from_bytes(a);
            ctx.state.neighbors.set_link_address(src_ip, link_addr, false);
        },
        NdpOption::Mtu(mtu) => {
            if *mtu >= MINIMUM_LINK_MTU {
                ctx.act(NdpAction::SetMtu { mtu: *mtu });
            }
        },
        NdpOption::PrefixInformation(p) => {
            receive_prefix_information(ctx, p);
        },
        _ => {},
    }
}

/// Takes in the parameters of an advertisement, where they are specified.
fn receive_router_parameters<H: LinkAddress>(
    ctx: &mut NdpContext<H>,
    ra: &RouterAdvertisement,
    draw: Duration,
)
    requires
        ra.reachable_time > 0 ==> draw.nanos < Duration::of_millis(ra.reachable_time as u64).nanos,
    ensures
        final(ctx)@ == old(ctx)@.heard_parameters(*ra, draw),
{
    if ra.reachable_time > 0 {
        let base = Duration::from_millis(ra.reachable_time as u64);
        ctx.state.set_base_reachable_time_with_draw(base, draw);
    }
    if ra.retransmit_timer > 0 {
        ctx.state.set_retrans_timer(Duration::from_millis(ra.retransmit_timer as u64));
    }
    if let Some(hop_limit) = NonZeroU8::new(ra.current_hop_limit) {
        ctx.default_hop_limit = hop_limit;
    }
}

/// Receives a Router Advertisement from a link-local address. Stops at an option that cannot be
/// processed, and tells whether there was none.
fn receive_router_advertisement<H: LinkAddress>(
    ctx: &mut NdpContext<H>,
    src_ip: Ipv6Addr,
    ra: &RouterAdvertisement,
    options: &Vec<NdpOption>,
    draw: Duration,
) -> (result: bool)
    requires
        old(ctx)@.inv(),
        old(ctx)@.clock_ok(),
        src_ip.link_local(),
        ra.reachable_time > 0 ==> draw.nanos < Duration::of_millis(ra.reachable_time as u64).nanos,
    ensures
        result == (old(ctx)@.is_router_device() || old(ctx)@.count(
            Counter::RxRouterAdvertisement,
        ).heard_router(src_ip, ra.router_lifetime).options_ok(src_ip, options@)),
        result ==> final(ctx)@ == old(ctx)@.receive_ra(src_ip, *ra, options@, draw),
        !result ==> final(ctx)@.inv() && exists|count: int|
            Some(final(ctx)@) == #[trigger] old(ctx)@.stopped_ra(
                src_ip,
                *ra,
                options@,
                draw,
                count,
            ),
{
    let ghost view0 = ctx@;
    ctx.act(NdpAction::Count(Counter::RxRouterAdvertisement));
    if ctx.is_router_device() {
        return true;
    }
    let ghost view1 = ctx@;
    proof {
        view1.lemma_actions(view0);
        view1.lemma_heard_router(src_ip, ra.router_lifetime);
    }
    let timer_id = InnerNdpTimerId::RouterInvalidation { ip: src_ip };
    if ra.router_lifetime > 0 {
        if !ctx.state.has_default_router(&src_ip) {
            ctx.state.add_default_router(src_ip);
        } else {
            assert(view1.default_routers.insert(src_ip) =~= view1.default_routers);
        }
        let _ = ctx.schedule_timer(Duration::from_secs(ra.router_lifetime as u64), timer_id);
    } else if ctx.state.has_default_router(&src_ip) {
        ctx.state.invalidate_default_router(&src_ip);
        let _ = ctx.cancel_timer(timer_id);
    }
    let ghost view2 = ctx@;
    assert(view2 =~= view1.heard_router(src_ip, ra.router_lifetime));
    receive_router_parameters(ctx, ra, draw);
    let ghost view3 = ctx@;
    proof {
        view2.lemma_heard_parameters(*ra, draw);
        view2.parameters_and_options_commute(*ra, draw, src_ip, options@);
        assert(options@.take(0) =~= Seq::empty());
    }
    let mut i: usize = 0;
    while i < options.len()
        invariant
            i <= options@.len(),
            view3 == view2.heard_parameters(*ra, draw),
            view3 == view0.heard_advertiser(src_ip, *ra, draw),
            !view0.is_router_device(),
            view2 == view0.count(Counter::RxRouterAdvertisement).heard_router(
                src_ip,
                ra.router_lifetime,
            ),
            view0 == old(ctx)@,
            view3.options_ok(src_ip, options@) == view2.options_ok(src_ip, options@),
            view3.options_ok(src_ip, options@.take(i as int)),
            ctx@ == view3.heard_options(src_ip, options@.take(i as int)),
            ctx@.inv(),
            ctx@.clock_ok(),
        decreases options@.len() - i,
    {
        proof {
            let next = options@.take(i + 1);
            assert(next.drop_last() =~= options@.take(i as int));
            assert(next.last() == options@[i as int]);
        }
        if !is_option_ok(ctx, &options[i]) {
            proof {
                view3.lemma_stops_at(src_ip, options@, i as int);
                assert(Some(ctx@) == view0.stopped_ra(src_ip, *ra, options@, draw, i as int));
            }
            return false;
        }
        receive_router_option(ctx, src_ip, &options[i]);
        i = i + 1;
    }
    assert(options@.take(options@.len() as int) =~= options@);
    ctx.state.set_router_flag(&src_ip, true);
    true
}

/// Receives a Neighbor Solicitation for a unicast address. Does nothing and says so if the answer
/// would have to go to an address that cannot get one.
fn receive_neighbor_solicitation<H: LinkAddress>(
    ctx: &mut NdpContext<H>,
    src_ip: Ipv6SourceAddr,
    target_address: Ipv6Addr,
    options: &Vec<NdpOption>,
) -> (result: bool)
    requires
        old(ctx)@.inv(),
        target_address.unicast(),
    ensures
        result == (src_ip matches Ipv6SourceAddr::Unicast(src) ==> (old(ctx)@.answers_for(
            target_address,
        ) ==> src.valid_unicast())),
        result ==> final(ctx)@ == old(ctx)@.receive_ns(src_ip, target_address, options@),
        !result ==> final(ctx)@ == old(ctx)@,
{
    proof {
        lemma_find_addr(ctx@.addrs, target_address);
    }
    let i: usize = match ctx.find_addr(&target_address) {
        Some(i) => i,
        None => {
            return true;
        },
    };
    assert(ctx@.addrs[i as int].addr_sub.addr == target_address);
    if ctx.addrs[i].state.is_tentative() {
        if let Ipv6SourceAddr::Unspecified = src_ip {
            ctx.act(NdpAction::DuplicateAddressDetected { addr: target_address });
        }
        return true;
    }
    if let Ipv6SourceAddr::Unicast(src) = src_ip {
        if !src.is_valid_unicast() {
            return false;
        }
    }
    ctx.act(NdpAction::Count(Counter::RxNeighborSolicitation));
    match src_ip {
        Ipv6SourceAddr::Unicast(src) => {
            if let Some(ll) = get_source_link_layer_option::<H>(options) {
                ctx.state.neighbors.set_link_address(src, ll, false);
            }
            send_neighbor_advertisement(ctx, true, target_address, src);
        },
        Ipv6SourceAddr::Unspecified => {
            send_neighbor_advertisement(
                ctx,
                false,
                target_address,
                Ipv6Addr { bits: ALL_NODES_LINK_LOCAL_MULTICAST_ADDRESS },
            );
        },
    }
    true
}

/// A complete neighbor entry once an advertisement came.
pub fn update_neighbor<H: LinkAddress>(
    neighbor: NeighborState<H>,
    message: &NeighborAdvertisement,
    target_ll: Option<H>,
) -> (result: NeighborState<H>)
    requires
        neighbor.wf(),
        neighbor.state !is Incomplete,
    ensures
        result == advertised(neighbor, *message, target_ll),
        result.wf(),
{
    let mut neighbor = neighbor;
    let is_same = match &target_ll {
        Some(address) => same_address(&neighbor.link_address, address),
        None => false,
    };
    if !message.override_flag && target_ll.is_some() && !is_same && neighbor.is_reachable() {
        neighbor.state = NeighborEntryState::Stale;
    }
    if target_ll.is_some() && !is_same && message.override_flag {
        neighbor.link_address = target_ll;
    }
    if message.override_flag || target_ll.is_none() || is_same {
        if message.solicited_flag {
            neighbor.state = NeighborEntryState::Reachable;
        } else if message.override_flag && target_ll.is_some() && !is_same {
            neighbor.state = NeighborEntryState::Stale;
        }
        neighbor.is_router = message.router_flag;
    }
    neighbor
}

/// Receives a Neighbor Advertisement from a unicast address for a unicast address.
fn receive_neighbor_advertisement<H: LinkAddress>(
    ctx: &mut NdpContext<H>,
    src_ip: Ipv6Addr,
    message: &NeighborAdvertisement,
    options: &Vec<NdpOption>,
)
    requires
        old(ctx)@.inv(),
    ensures
        final(ctx)@ == old(ctx)@.receive_na(src_ip, *message, options@),
{
    proof {
        lemma_find_addr(ctx@.addrs, message.target_address);
    }
    if let Some(i) = ctx.find_addr(&message.target_address) {
        if ctx.addrs[i].state.is_tentative() {
            ctx.act(NdpAction::DuplicateAddressDetected { addr: message.target_address });
        }
        return ;
    }
    ctx.act(NdpAction::Count(Counter::RxNeighborAdvertisement));
    let ghost view1 = ctx@;
    let mut neighbor = match ctx.state.neighbors.get_neighbor_state(&src_ip) {
        Some(neighbor) => neighbor,
        None => {
            return ;
        },
    };
    assert(view1.neighbors.dom().contains(src_ip));
    let target_ll = get_target_link_layer_option::<H>(options);
    if neighbor.is_incomplete() {
        if let Some(address) = target_ll {
            neighbor.is_router = message.router_flag;
            ctx.state.neighbors.set_neighbor_state(src_ip, neighbor);
            ctx.state.neighbors.set_link_address(src_ip, address, message.solicited_flag);
            let _ = ctx.cancel_timer(
                InnerNdpTimerId::LinkAddressResolution { neighbor_addr: src_ip },
            );
            ctx.act(NdpAction::AddressResolved { address: src_ip, link_address: address });
            assert(ctx@ =~= view1.neighbor_advertised(src_ip, *message, target_ll));
        }
        return ;
    }
    let was_router = neighbor.is_router;
    let next = update_neighbor(neighbor, message, target_ll);
    ctx.state.neighbors.set_neighbor_state(src_ip, next);
    if was_router && !next.is_router && src_ip.is_link_local() {
        if ctx.state.has_default_router(&src_ip) {
            ctx.state.invalidate_default_router(&src_ip);
        } else {
            assert(view1.default_routers.remove(src_ip) =~= view1.default_routers);
        }
    }
    assert(ctx@ =~= view1.neighbor_advertised(src_ip, *message, target_ll));
}

/// Receives a message. If it changes the base for the reachable time, the reachable time follows
/// from `draw`. Tells whether the message could be processed: an advertisement is processed up to
/// the first option that cannot be, and a solicitation that cannot be answered is not processed.
pub fn try_receive_ndp_packet_with_draw<H: LinkAddress>(
    ctx: &mut NdpContext<H>,
    src_ip: Ipv6SourceAddr,
    packet: &NdpPacket,
    draw: Duration,
) -> (result: bool)
    requires
        old(ctx)@.inv(),
        old(ctx)@.clock_ok(),
        draw_ok(*packet, draw),
    ensures
        result == old(ctx)@.receivable(src_ip, *packet),
        result ==> final(ctx)@ == old(ctx)@.receive(src_ip, *packet, draw),
        !result ==> old(ctx)@.stopped(final(ctx)@, src_ip, *packet, draw),
        final(ctx)@.inv(),
{
    let ghost view0 = ctx@;
    let result = match packet {
        NdpPacket::RouterSolicitation => true,
        NdpPacket::RouterAdvertisement { message, options } => match src_ip {
            Ipv6SourceAddr::Unicast(src) => !src.is_link_local() || receive_router_advertisement(
                ctx,
                src,
                message,
                options,
                draw,
            ),
            Ipv6SourceAddr::Unspecified => true,
        },
        NdpPacket::NeighborSolicitation { target_address, options } => {
            !target_address.is_unicast() || receive_neighbor_solicitation(
                ctx,
                src_ip,
                *target_address,
                options,
            )
        },
        NdpPacket::NeighborAdvertisement { message, options } => {
            if let Ipv6SourceAddr::Unicast(src) = src_ip {
                if message.target_address.is_unicast() {
                    receive_neighbor_advertisement(ctx, src, message, options);
                }
            }
            true
        },
        NdpPacket::Redirect => true,
    };
    proof {
        if result {
            view0.receive_keeps_inv(src_ip, *packet, draw);
        }
    }
    result
}

/// A number that may be drawn for a message.
fn draw_for(packet: &NdpPacket) -> (result: Duration)
    ensures
        draw_ok(*packet, result),
{
    let mut draw = Duration { nanos: 0 };
    if let NdpPacket::RouterAdvertisement { message, options: _ } = packet {
        if message.reachable_time > 0 {
            let base = Duration::from_millis(message.reachable_time as u64);
            draw = Duration { nanos: draw_below(base.nanos) };
        }
    }
    draw
}

/// Receives a message, and tells whether it could be processed.
pub fn try_receive_ndp_packet<H: LinkAddress>(
    ctx: &mut NdpContext<H>,
    src_ip: Ipv6SourceAddr,
    packet: &NdpPacket,
) -> (result: bool)
    requires
        old(ctx)@.inv(),
        old(ctx)@.clock_ok(),
    ensures
        result == old(ctx)@.receivable(src_ip, *packet),
        exists|draw: Duration| #[trigger]
            draw_ok(*packet, draw) && if result {
                final(ctx)@ == old(ctx)@.receive(src_ip, *packet, draw)
            } else {
                old(ctx)@.stopped(final(ctx)@, src_ip, *packet, draw)
            },
        final(ctx)@.inv(),
{
    let draw = draw_for(packet);
    try_receive_ndp_packet_with_draw(ctx, src_ip, packet, draw)
}

/// Receives a message. If it changes the base for the reachable time, the reachable time follows
/// from `draw`.
pub fn receive_ndp_packet_with_draw<H: LinkAddress>(
    ctx: &mut NdpContext<H>,
    src_ip: Ipv6SourceAddr,
    packet: &NdpPacket,
    draw: Duration,
)
    requires
        old(ctx)@.inv(),
        old(ctx)@.clock_ok(),
        old(ctx)@.receivable(src_ip, *packet),
        draw_ok(*packet, draw),
    ensures
        final(ctx)@ == old(ctx)@.receive(src_ip, *packet, draw),
        final(ctx)@.inv(),
{
    let _ = try_receive_ndp_packet_with_draw(ctx, src_ip, packet, draw);
}

/// Receives a message.
pub fn receive_ndp_packet<H: LinkAddress>(
    ctx: &mut NdpContext<H>,
    src_ip: Ipv6SourceAddr,
    packet: &NdpPacket,
)
    requires
        old(ctx)@.inv(),
        old(ctx)@.clock_ok(),
        old(ctx)@.receivable(src_ip, *packet),
    ensures
        exists|draw: Duration|
            draw_ok(*packet, draw) && final(ctx)@ == #[trigger] old(ctx)@.receive(
                src_ip,
                *packet,
                draw,
            ),
        final(ctx)@.inv(),
{
    let draw = draw_for(packet);
    receive_ndp_packet_with_draw(ctx, src_ip, packet, draw);
}

} // verus!
