//! What neighbor discovery promises.

use crate::ndp::model::{
    advertised, draw_ok, find_addr, find_slaac, global_address, lemma_first_is, lemma_first_where,
    link_option, new_valid_until, prefix_subnet, source_addr, NdpView, MAX_MULTICAST_SOLICIT,
    MIN_PREFIX_VALID_LIFETIME_FOR_UPDATE, REQUIRED_PREFIX_BITS, RTR_SOLICITATION_INTERVAL,
};
use crate::ndp::packet::{
    Counter, LinkOption, NdpAction, NdpMessage, NdpOption, NdpPacket, NeighborAdvertisement,
    PrefixInformation, RouterAdvertisement, INFINITE_LIFETIME, MINIMUM_LINK_MTU,
    REQUIRED_NDP_IP_PACKET_HOP_LIMIT,
};
use crate::ndp::safety::{distinct, lemma_find_addr, lemma_find_slaac, lemma_source_addr};
use crate::ndp::state::{
    in_reachable_range, AddrConfig, AddressState, Ipv6AddressEntry, NeighborState,
};
use crate::ndp::timer::{InnerNdpTimerId, NdpTimerId};
use crate::net::addr::{
    Ipv6Addr, Ipv6SourceAddr, Subnet, ALL_NODES_LINK_LOCAL_MULTICAST_ADDRESS, UNSPECIFIED_ADDRESS,
};
use crate::net::link::LinkAddress;
use crate::net::time::{Duration, Instant};
use vstd::prelude::*;

verus! {

// -- Address resolution --

/// A timer fires several times, each time at the instant that it is set for.
pub open spec fn fire_times<H: LinkAddress>(
    v: NdpView<H>,
    inner: InnerNdpTimerId,
    times: nat,
) -> NdpView<H>
    decreases times,
{
    if times == 0 {
        v
    } else {
        at_timer(fire_times(v, inner, (times - 1) as nat), inner).fire(inner)
    }
}

/// The device when a timer is about to fire.
pub open spec fn at_timer<H: LinkAddress>(v: NdpView<H>, inner: InnerNdpTimerId) -> NdpView<H> {
    NdpView { now: v.timers[v.timer(inner)], ..v }
}

/// The number of solicitations for an address among the actions.
pub open spec fn solicitations_for<H>(actions: Seq<NdpAction<H>>, target: Ipv6Addr) -> nat
    decreases actions.len(),
{
    if actions.len() == 0 {
        0
    } else {
        let rest = solicitations_for(actions.drop_last(), target);
        match actions.last() {
            NdpAction::Send {
                message: NdpMessage::NeighborSolicitation { target_address },
                ..
            } => if target_address == target {
                rest + 1
            } else {
                rest
            },
            _ => rest,
        }
    }
}

/// The number of router solicitations among the actions.
pub open spec fn router_solicitations<H>(actions: Seq<NdpAction<H>>) -> nat
    decreases actions.len(),
{
    if actions.len() == 0 {
        0
    } else {
        let rest = router_solicitations(actions.drop_last());
        match actions.last() {
            NdpAction::Send { message: NdpMessage::RouterSolicitation, .. } => rest + 1,
            _ => rest,
        }
    }
}

proof fn lemma_push_counts<H>(actions: Seq<NdpAction<H>>, action: NdpAction<H>)
    ensures
        actions.push(action).drop_last() == actions,
        actions.push(action).last() == action,
{
    assert(actions.push(action).drop_last() =~= actions);
}

/// A neighbor that is looked up twice is solicited once.
pub proof fn second_lookup_changes_nothing<H: LinkAddress>(v: NdpView<H>, addr: Ipv6Addr)
    ensures
        v.lookup(addr).lookup(addr) == v.lookup(addr),
{
}

/// A look-up finds a link address just when the neighbor is known and not being resolved.
pub proof fn lookup_finds_resolved_neighbors<H: LinkAddress>(v: NdpView<H>, addr: Ipv6Addr)
    requires
        v.inv(),
    ensures
        v.lookup_result(addr) is Some <==> v.neighbors.dom().contains(addr)
            && v.neighbors[addr].state !is Incomplete,
{
}

/// A neighbor that never answers is solicited `MAX_MULTICAST_SOLICIT` times, once at the look-up and
/// then each time that the retransmission time has passed.
pub proof fn silent_neighbor_is_solicited<H: LinkAddress>(
    v: NdpView<H>,
    addr: Ipv6Addr,
    times: nat,
)
    requires
        !v.neighbors.dom().contains(addr),
        source_addr(v.addrs) is Some,
        times < MAX_MULTICAST_SOLICIT,
        v.now.nanos + MAX_MULTICAST_SOLICIT * v.retrans_timer.nanos <= u128::MAX,
    ensures
        ({
            let inner = InnerNdpTimerId::LinkAddressResolution { neighbor_addr: addr };
            let next = fire_times(v.lookup(addr), inner, times);
            &&& next.neighbors.dom().contains(addr)
            &&& next.neighbors[addr] == NeighborState::<H>::fresh((times + 1) as u8)
            &&& next.now.nanos == v.now.nanos + times * v.retrans_timer.nanos
            &&& next.has_timer(inner)
            &&& next.timers[next.timer(inner)] == next.now.after(v.retrans_timer)
            &&& solicitations_for(next.actions, addr) == solicitations_for(v.actions, addr) + times
                + 1
            &&& next.addrs == v.addrs
            &&& next.device_id == v.device_id
            &&& next.retrans_timer == v.retrans_timer
        }),
    decreases times,
{
    let inner = InnerNdpTimerId::LinkAddressResolution { neighbor_addr: addr };
    let packet = NdpAction::Send {
        src_ip: source_addr(v.addrs)->0,
        dst_ip: addr.solicited_node(),
        hop_limit: REQUIRED_NDP_IP_PACKET_HOP_LIMIT,
        message: NdpMessage::NeighborSolicitation { target_address: addr },
        option: Some(LinkOption::SourceLinkLayerAddress(v.link_addr)),
    };
    if times == 0 {
        lemma_push_counts(v.actions, packet);
    } else {
        silent_neighbor_is_solicited(v, addr, (times - 1) as nat);
        let before = fire_times(v.lookup(addr), inner, (times - 1) as nat);
        let next = at_timer(before, inner).fire(inner);
        let r = v.retrans_timer.nanos as int;
        assert((times - 1) * r + r == times * r) by (nonlinear_arith);
        assert(times * r <= MAX_MULTICAST_SOLICIT * r) by (nonlinear_arith)
            requires
                times < MAX_MULTICAST_SOLICIT,
                r >= 0,
        ;
        lemma_push_counts(before.actions, next.actions.last());
        assert(next.actions.drop_last() =~= before.actions);
    }
}

/// A neighbor that never answers is given up when its timer has fired `MAX_MULTICAST_SOLICIT` times:
/// it is forgotten, its timer is gone, and the device layer is told.
pub proof fn silent_neighbor_is_given_up<H: LinkAddress>(v: NdpView<H>, addr: Ipv6Addr)
    requires
        !v.neighbors.dom().contains(addr),
        source_addr(v.addrs) is Some,
        v.now.nanos + MAX_MULTICAST_SOLICIT * v.retrans_timer.nanos <= u128::MAX,
    ensures
        ({
            let inner = InnerNdpTimerId::LinkAddressResolution { neighbor_addr: addr };
            let next = fire_times(v.lookup(addr), inner, MAX_MULTICAST_SOLICIT as nat);
            &&& !next.neighbors.dom().contains(addr)
            &&& !next.has_timer(inner)
            &&& next.actions.last() == (NdpAction::<H>::AddressResolutionFailed { address: addr })
        }),
{
    silent_neighbor_is_solicited(v, addr, (MAX_MULTICAST_SOLICIT - 1) as nat);
}

/// An answer with a link address resolves a neighbor: look-ups find that address, the neighbor is
/// reachable if the answer was solicited and stale if not, the timer is gone, and the device layer
/// is told.
pub proof fn answer_resolves_neighbor<H: LinkAddress>(
    v: NdpView<H>,
    src: Ipv6Addr,
    m: NeighborAdvertisement,
    options: Vec<NdpOption>,
    draw: Duration,
    ll: H,
)
    requires
        v.inv(),
        v.neighbors.dom().contains(src),
        v.neighbors[src].state is Incomplete,
        m.target_address.unicast(),
        find_addr(v.addrs, m.target_address) is None,
        link_option::<H>(options@, false) == Some(ll),
    ensures
        ({
            let packet = NdpPacket::NeighborAdvertisement { message: m, options };
            let next = v.receive(Ipv6SourceAddr::Unicast(src), packet, draw);
            &&& next.lookup_result(src) == Some(ll)
            &&& next.neighbors[src].is_router == m.router_flag
            &&& m.solicited_flag ==> next.neighbors[src].state is Reachable
            &&& !m.solicited_flag ==> next.neighbors[src].state is Stale
            &&& !next.has_timer(InnerNdpTimerId::LinkAddressResolution { neighbor_addr: src })
            &&& next.actions.last() == (NdpAction::AddressResolved {
                address: src,
                link_address: ll,
            })
        }),
{
    assert(v.neighbors[src].wf());
}

/// An advertisement from a node that is not a known neighbor, for an address that is not the
/// device's, changes nothing.
pub proof fn unknown_neighbor_is_ignored<H: LinkAddress>(
    v: NdpView<H>,
    src: Ipv6Addr,
    m: NeighborAdvertisement,
    options: Vec<NdpOption>,
    draw: Duration,
)
    requires
        !v.neighbors.dom().contains(src),
        find_addr(v.addrs, m.target_address) is None,
    ensures
        ({
            let packet = NdpPacket::NeighborAdvertisement { message: m, options };
            v.receive(Ipv6SourceAddr::Unicast(src), packet, draw).same_but_actions(v)
        }),
{
}

/// An advertisement with another link address and without the override flag never changes the link
/// address: a reachable neighbor becomes stale, and others stay as they are (RFC 4861, section
/// 7.2.5).
pub proof fn no_override_keeps_address<H>(n: NeighborState<H>, m: NeighborAdvertisement, ll: H)
    requires
        !m.override_flag,
        n.link_address != Some(ll),
    ensures
        advertised(n, m, Some(ll)).link_address == n.link_address,
        advertised(n, m, Some(ll)).is_router == n.is_router,
        n.state is Reachable ==> advertised(n, m, Some(ll)).state is Stale,
        n.state !is Reachable ==> advertised(n, m, Some(ll)) == n,
{
}

/// An advertisement with the override flag sets the link address: the neighbor is reachable if the
/// advertisement was solicited, and otherwise stale if the address is a new one.
pub proof fn override_sets_address<H>(n: NeighborState<H>, m: NeighborAdvertisement, ll: H)
    requires
        m.override_flag,
    ensures
        advertised(n, m, Some(ll)).link_address == Some(ll),
        advertised(n, m, Some(ll)).is_router == m.router_flag,
        m.solicited_flag ==> advertised(n, m, Some(ll)).state is Reachable,
        !m.solicited_flag && n.link_address != Some(ll) ==> advertised(n, m, Some(ll)).state
            is Stale,
        !m.solicited_flag && n.link_address == Some(ll) ==> advertised(n, m, Some(ll)).state
            == n.state,
{
}

/// A neighbor that says it is a router no more is no default router any more, unless it says so
/// together with another link address that may not override the known one.
pub proof fn neighbor_may_stop_routing<H: LinkAddress>(
    v: NdpView<H>,
    src: Ipv6Addr,
    m: NeighborAdvertisement,
    options: Vec<NdpOption>,
    draw: Duration,
)
    requires
        v.inv(),
        v.neighbors.dom().contains(src),
        v.neighbors[src].state !is Incomplete,
        v.neighbors[src].is_router,
        !m.router_flag,
        src.link_local(),
        m.target_address.unicast(),
        find_addr(v.addrs, m.target_address) is None,
        m.override_flag || link_option::<H>(options@, false) is None || link_option::<H>(
            options@,
            false,
        ) == v.neighbors[src].link_address,
    ensures
        ({
            let packet = NdpPacket::NeighborAdvertisement { message: m, options };
            let next = v.receive(Ipv6SourceAddr::Unicast(src), packet, draw);
            &&& !next.default_routers.contains(src)
            &&& !next.neighbors[src].is_router
        }),
{
}

/// A solicitation for an address of the device that is known to be unique is answered: to the node
/// that asked, or to all nodes if it asked from no address.
pub proof fn solicitation_is_answered<H: LinkAddress>(
    v: NdpView<H>,
    src_ip: Ipv6SourceAddr,
    target: Ipv6Addr,
    options: Vec<NdpOption>,
    draw: Duration,
)
    requires
        target.unicast(),
        find_addr(v.addrs, target) is Some,
        v.addrs[find_addr(v.addrs, target)->0].state !is Tentative,
    ensures
        ({
            let packet = NdpPacket::NeighborSolicitation { target_address: target, options };
            v.receive(src_ip, packet, draw).actions.last() == (NdpAction::Send {
                src_ip: target,
                dst_ip: match src_ip {
                    Ipv6SourceAddr::Unicast(src) => src,
                    Ipv6SourceAddr::Unspecified => Ipv6Addr {
                        bits: ALL_NODES_LINK_LOCAL_MULTICAST_ADDRESS,
                    },
                },
                hop_limit: REQUIRED_NDP_IP_PACKET_HOP_LIMIT,
                message: NdpMessage::NeighborAdvertisement(
                    NeighborAdvertisement {
                        router_flag: v.is_router_device(),
                        solicited_flag: src_ip is Unicast,
                        override_flag: false,
                        target_address: target,
                    },
                ),
                option: Some(LinkOption::TargetLinkLayerAddress(v.link_addr)),
            })
        }),
{
}

// -- Router discovery --

/// A device that starts to look for routers sends as many solicitations as it is configured to, the
/// first one after the delay and each other one an interval after the one before, and then no more.
/// Only a device that operates as a router does not.
pub proof fn routers_are_solicited<H: LinkAddress>(v: NdpView<H>, delay: Duration, times: nat)
    requires
        v.inv(),
        !v.is_router_device(),
        v.solicitations_remaining == 0,
        times <= v.solicitation_limit,
        v.now.nanos + delay.nanos + v.solicitation_limit * Duration::of_secs(
            RTR_SOLICITATION_INTERVAL,
        ).nanos <= u128::MAX,
    ensures
        ({
            let inner = InnerNdpTimerId::RouterSolicitationTransmit;
            let interval = Duration::of_secs(RTR_SOLICITATION_INTERVAL);
            let next = fire_times(v.start_soliciting(delay), inner, times);
            &&& next.solicitations_remaining == v.solicitation_limit - times
            &&& next.has_timer(inner) <==> times < v.solicitation_limit
            &&& next.fireable(inner) <==> times < v.solicitation_limit
            &&& router_solicitations(next.actions) == router_solicitations(v.actions) + times
            &&& times == 0 ==> next.now == v.now
            &&& times > 0 ==> next.now.nanos == v.now.nanos + delay.nanos + (times - 1)
                * interval.nanos
            &&& times < v.solicitation_limit ==> next.timers[next.timer(inner)] == next.now.after(
                if times == 0 {
                    delay
                } else {
                    interval
                },
            )
            &&& next.device_id == v.device_id
            &&& next.is_router_device() == v.is_router_device()
        }),
    decreases times,
{
    let inner = InnerNdpTimerId::RouterSolicitationTransmit;
    if times > 0 {
        routers_are_solicited(v, delay, (times - 1) as nat);
        let before = fire_times(v.start_soliciting(delay), inner, (times - 1) as nat);
        let next = at_timer(before, inner).fire(inner);
        let x = Duration::of_secs(RTR_SOLICITATION_INTERVAL).nanos as int;
        let limit = v.solicitation_limit as int;
        assert((times - 2) * x + x == (times - 1) * x) by (nonlinear_arith);
        assert(0 * x == 0);
        assert((times - 1) * x + x <= limit * x) by (nonlinear_arith)
            requires
                times <= limit,
                x >= 0,
        ;
        assert(0 <= (times - 1) * x) by (nonlinear_arith)
            requires
                times >= 1,
                x >= 0,
        ;
        lemma_push_counts(before.actions, next.actions.last());
        assert(next.actions.drop_last() =~= before.actions);
    }
}

/// A device that has stopped to look for routers sends no more solicitations.
pub proof fn stopping_is_final<H: LinkAddress>(v: NdpView<H>)
    ensures
        v.stop_soliciting().solicitations_remaining == 0,
        !v.stop_soliciting().has_timer(InnerNdpTimerId::RouterSolicitationTransmit),
        v.stop_soliciting().actions == v.actions,
{
}

/// A Router Solicitation changes nothing, whoever gets it.
pub proof fn router_solicitations_are_discarded<H: LinkAddress>(
    v: NdpView<H>,
    src_ip: Ipv6SourceAddr,
    draw: Duration,
)
    ensures
        v.receivable(src_ip, NdpPacket::RouterSolicitation),
        v.receive(src_ip, NdpPacket::RouterSolicitation, draw) == v,
{
}

/// A Router Advertisement that does not come from a link-local address, or that a router gets, can
/// be received whatever its options are, and changes nothing. A router counts one that comes from a
/// link-local address.
pub proof fn advertisement_is_discarded<H: LinkAddress>(
    v: NdpView<H>,
    src_ip: Ipv6SourceAddr,
    packet: NdpPacket,
    draw: Duration,
)
    requires
        packet is RouterAdvertisement,
        v.is_router_device() || (src_ip matches Ipv6SourceAddr::Unicast(src) ==> !src.link_local()),
    ensures
        v.receivable(src_ip, packet),
        v.receive(src_ip, packet, draw) == if src_ip is Unicast && src_ip->Unicast_0.link_local() {
            v.count(Counter::RxRouterAdvertisement)
        } else {
            v
        },
{
}

/// What is known of routers and of the parameters of the link is the same.
spec fn same_router_state<H: LinkAddress>(v: NdpView<H>, other: NdpView<H>) -> bool {
    &&& v.device_id == other.device_id
    &&& v.now == other.now
    &&& v.default_routers == other.default_routers
    &&& v.base_reachable_time == other.base_reachable_time
    &&& v.reachable_time == other.reachable_time
    &&& v.retrans_timer == other.retrans_timer
    &&& v.default_hop_limit == other.default_hop_limit
    &&& forall|inner: InnerNdpTimerId|
        inner is RouterInvalidation ==> (#[trigger] v.has_timer(inner) <==> other.has_timer(inner))
            && v.timers[v.timer(inner)] == other.timers[other.timer(inner)]
}

proof fn lemma_same_transitive<H: LinkAddress>(a: NdpView<H>, b: NdpView<H>, c: NdpView<H>)
    requires
        same_router_state(a, b),
        same_router_state(b, c),
    ensures
        same_router_state(a, c),
{
    assert forall|inner: InnerNdpTimerId| inner is RouterInvalidation implies (
    #[trigger] a.has_timer(inner) <==> c.has_timer(inner)) && a.timers[a.timer(inner)]
        == c.timers[c.timer(inner)] by {
        assert(a.has_timer(inner) == b.has_timer(inner));
        assert(b.has_timer(inner) == c.has_timer(inner));
    }
}

proof fn lemma_slaac_leaves<H: LinkAddress>(v: NdpView<H>, p: PrefixInformation)
    ensures
        same_router_state(v.slaac_update(p), v),
        v.slaac_update(p).on_link_prefixes == v.on_link_prefixes,
        v.slaac_update(p).neighbors == v.neighbors,
        forall|inner: InnerNdpTimerId|
            inner is PrefixInvalidation ==> (#[trigger] v.slaac_update(p).has_timer(inner)
                <==> v.has_timer(inner)) && v.slaac_update(p).timers[v.timer(inner)]
                == v.timers[v.timer(inner)],
{
}

proof fn lemma_options_leave<H: LinkAddress>(
    v: NdpView<H>,
    src_ip: Ipv6Addr,
    options: Seq<NdpOption>,
)
    ensures
        same_router_state(v.heard_options(src_ip, options), v),
    decreases options.len(),
{
    if options.len() > 0 {
        lemma_options_leave(v, src_ip, options.drop_last());
        let mid = v.heard_options(src_ip, options.drop_last());
        let next = mid.heard_option(src_ip, options.last());
        assert(same_router_state(next, mid)) by {
            if let NdpOption::PrefixInformation(p) = options.last() {
                let on_link = mid.heard_on_link(prefix_subnet(p), p.valid_lifetime);
                assert(same_router_state(on_link, mid));
                lemma_slaac_leaves(mid, p);
                lemma_slaac_leaves(on_link, p);
                lemma_same_transitive(on_link.slaac_update(p), on_link, mid);
            }
        }
        lemma_same_transitive(next, mid, v);
    }
}

/// A router that advertises a lifetime is a default router for that time, and one that advertises
/// none is no default router. If it is known as a neighbor, it is known as a router.
pub proof fn router_lifetime_is_kept<H: LinkAddress>(
    v: NdpView<H>,
    src: Ipv6Addr,
    message: RouterAdvertisement,
    options: Vec<NdpOption>,
    draw: Duration,
)
    requires
        src.link_local(),
        !v.is_router_device(),
    ensures
        ({
            let packet = NdpPacket::RouterAdvertisement { message, options };
            let next = v.receive(Ipv6SourceAddr::Unicast(src), packet, draw);
            let inner = InnerNdpTimerId::RouterInvalidation { ip: src };
            &&& next.default_routers.contains(src) <==> message.router_lifetime > 0
            &&& forall|other: Ipv6Addr|
                other != src ==> (#[trigger] next.default_routers.contains(other)
                    <==> v.default_routers.contains(other))
            &&& message.router_lifetime > 0 ==> next.has_timer(inner)
                && next.timers[next.timer(inner)] == v.now.after(
                Duration::of_secs(message.router_lifetime as u64),
            )
            &&& next.neighbors.dom().contains(src) ==> next.neighbors[src].is_router
        }),
{
    let heard = v.heard_advertiser(src, message, draw);
    lemma_options_leave(heard, src, options@);
    let inner = InnerNdpTimerId::RouterInvalidation { ip: src };
    assert(message.router_lifetime > 0 ==> heard.has_timer(inner));
    assert(heard.heard_options(src, options@).has_timer(inner) == heard.has_timer(inner));
}

/// When the time of a router has passed it is no default router any more, and its neighbor entry is
/// not marked as a router's.
pub proof fn router_expires<H: LinkAddress>(v: NdpView<H>, ip: Ipv6Addr)
    ensures
        ({
            let next = v.fire(InnerNdpTimerId::RouterInvalidation { ip });
            &&& !next.default_routers.contains(ip)
            &&& next.neighbors.dom() == v.neighbors.dom()
            &&& next.neighbors.dom().contains(ip) ==> !next.neighbors[ip].is_router
        }),
{
    let next = v.fire(InnerNdpTimerId::RouterInvalidation { ip });
    assert(next.neighbors.dom() =~= v.neighbors.dom());
}

/// A prefix that is advertised to be on the link is, until its time has passed; forever, if its
/// lifetime is infinite. One that is advertised without a lifetime is not.
pub proof fn prefix_lifetime_is_kept<H: LinkAddress>(
    v: NdpView<H>,
    src: Ipv6Addr,
    message: RouterAdvertisement,
    options: Vec<NdpOption>,
    draw: Duration,
    p: PrefixInformation,
)
    requires
        v.inv(),
        src.link_local(),
        !v.is_router_device(),
        options@ == seq![NdpOption::PrefixInformation(p)],
        p.on_link_flag,
        prefix_subnet(p).wf(),
        p.prefix.unicast(),
        !p.prefix.link_local(),
    ensures
        ({
            let packet = NdpPacket::RouterAdvertisement { message, options };
            let next = v.receive(Ipv6SourceAddr::Unicast(src), packet, draw);
            let subnet = prefix_subnet(p);
            let inner = InnerNdpTimerId::PrefixInvalidation { subnet };
            &&& next.on_link_prefixes.contains(subnet) <==> p.valid_lifetime > 0
            &&& next.has_timer(inner) <==> 0 < p.valid_lifetime < INFINITE_LIFETIME
            &&& 0 < p.valid_lifetime < INFINITE_LIFETIME ==> next.timers[next.timer(inner)]
                == v.now.after(Duration::of_secs(p.valid_lifetime as u64))
            &&& !next.fire(inner).on_link_prefixes.contains(subnet)
        }),
{
    let subnet = prefix_subnet(p);
    let inner = InnerNdpTimerId::PrefixInvalidation { subnet };
    let heard = v.heard_advertiser(src, message, draw);
    assert(heard.has_timer(inner) == v.has_timer(inner));
    let on_link = heard.heard_on_link(subnet, p.valid_lifetime);
    lemma_slaac_leaves(on_link, p);
    lemma_one_option(heard, src, options@);
    if p.valid_lifetime == 0 && !v.on_link_prefixes.contains(subnet) {
        assert(!v.has_timer(inner));
    }
    assert(on_link.has_timer(inner) == on_link.slaac_update(p).has_timer(inner));
}

proof fn lemma_one_option<H: LinkAddress>(v: NdpView<H>, src: Ipv6Addr, options: Seq<NdpOption>)
    requires
        options.len() == 1,
    ensures
        v.heard_options(src, options) == v.heard_option(src, options[0]),
{
    assert(options.drop_last() =~= Seq::empty());
    reveal_with_fuel(NdpView::heard_options, 2);
}

/// Prefix options for the link-local prefix, for a prefix that is not unicast and for one with bits
/// beyond its length are ignored: the advertisement might as well have no option.
pub proof fn improper_prefixes_are_ignored<H: LinkAddress>(
    v: NdpView<H>,
    src_ip: Ipv6SourceAddr,
    message: RouterAdvertisement,
    options: Vec<NdpOption>,
    no_options: Vec<NdpOption>,
    draw: Duration,
    p: PrefixInformation,
)
    requires
        p.prefix.link_local() || !p.prefix.unicast() || !prefix_subnet(p).wf(),
        options@ == seq![NdpOption::PrefixInformation(p)],
        no_options@.len() == 0,
    ensures
        v.receive(src_ip, NdpPacket::RouterAdvertisement { message, options }, draw) == v.receive(
            src_ip,
            NdpPacket::RouterAdvertisement { message, options: no_options },
            draw,
        ),
{
    if src_ip is Unicast {
        let src = src_ip->Unicast_0;
        let heard = v.heard_advertiser(src, message, draw);
        lemma_one_option(heard, src, options@);
    }
}

/// Parameters that an advertisement leaves unspecified stay as they are; the others take the
/// advertised value, and the reachable time stays in its range.
pub proof fn parameters_are_taken<H: LinkAddress>(
    v: NdpView<H>,
    src: Ipv6Addr,
    message: RouterAdvertisement,
    options: Vec<NdpOption>,
    draw: Duration,
)
    requires
        v.inv(),
        src.link_local(),
        !v.is_router_device(),
        draw_ok(NdpPacket::RouterAdvertisement { message, options }, draw),
    ensures
        ({
            let packet = NdpPacket::RouterAdvertisement { message, options };
            let next = v.receive(Ipv6SourceAddr::Unicast(src), packet, draw);
            let base = Duration::of_millis(message.reachable_time as u64);
            let retrans = Duration::of_millis(message.retransmit_timer as u64);
            &&& message.current_hop_limit == 0 ==> next.default_hop_limit == v.default_hop_limit
            &&& message.current_hop_limit > 0 ==> next.default_hop_limit
                == message.current_hop_limit
            &&& message.retransmit_timer == 0 ==> next.retrans_timer == v.retrans_timer
            &&& message.retransmit_timer > 0 ==> next.retrans_timer == retrans
            &&& message.reachable_time == 0 ==> next.base_reachable_time == v.base_reachable_time
            &&& message.reachable_time > 0 ==> next.base_reachable_time == base
            &&& next.base_reachable_time == v.base_reachable_time ==> next.reachable_time
                == v.reachable_time
            &&& in_reachable_range(next.base_reachable_time, next.reachable_time)
        }),
{
    let heard = v.heard_advertiser(src, message, draw);
    lemma_options_leave(heard, src, options@);
}

/// A device that is going away has no timers any more; those of other devices stay.
pub proof fn deinitialized_device_has_no_timers<H: LinkAddress>(v: NdpView<H>, device_id: u64)
    ensures
        forall|id: NdpTimerId| #[trigger]
            v.without_timers_of(device_id).timers.dom().contains(id) <==> v.timers.dom().contains(
                id,
            ) && id.device_id != device_id,
        forall|id: NdpTimerId| #[trigger]
            v.without_timers_of(device_id).timers.dom().contains(id) ==> v.without_timers_of(
                device_id,
            ).timers[id] == v.timers[id],
{
}

// -- Address autoconfiguration --

/// The valid lifetime of an address is never cut to less than two hours, nor to less than it is if
/// that is less already; a lifetime of more than two hours, or of more than is left, is taken.
pub proof fn two_hour_rule(now: Instant, old_until: Instant, valid_for: Duration)
    requires
        now.can_add(valid_for),
        now.can_add(Duration::of_secs(MIN_PREFIX_VALID_LIFETIME_FOR_UPDATE)),
    ensures
        ({
            let two_hours = Duration::of_secs(MIN_PREFIX_VALID_LIFETIME_FOR_UPDATE);
            let until = match new_valid_until(now, old_until, valid_for) {
                Some(until) => until,
                None => old_until,
            };
            &&& until.nanos >= old_until.nanos || until.nanos >= now.nanos + two_hours.nanos
            &&& until.nanos >= now.nanos + valid_for.nanos
            &&& valid_for.nanos > two_hours.nanos ==> until == now.after(valid_for)
            &&& now.nanos + valid_for.nanos > old_until.nanos ==> until == now.after(valid_for)
        }),
{
}

/// Several prefixes are advertised at one instant, one after the other.
pub open spec fn slaac_updates<H: LinkAddress>(
    v: NdpView<H>,
    prefixes: Seq<PrefixInformation>,
) -> NdpView<H>
    decreases prefixes.len(),
{
    if prefixes.len() == 0 {
        v
    } else {
        slaac_updates(v, prefixes.drop_last()).slaac_update(prefixes.last())
    }
}

/// The lesser of two hours from now and the instant until which an address is valid.
pub open spec fn guarded_until(now: Instant, until: Instant) -> int {
    let two_hours = now.nanos + Duration::of_secs(MIN_PREFIX_VALID_LIFETIME_FOR_UPDATE).nanos;
    if until.nanos < two_hours {
        until.nanos as int
    } else {
        two_hours
    }
}

/// However many advertisements of its prefix come at one instant, an autoconfigured address that is
/// not tentative stays valid for two hours, or for as long as it was if that is less: nobody can
/// take it away from the device. Each of them can be processed.
pub proof fn advertisements_cannot_cut_short<H: LinkAddress>(
    v: NdpView<H>,
    prefixes: Seq<PrefixInformation>,
    subnet: Subnet,
    i: int,
)
    requires
        v.inv(),
        v.clock_ok(),
        find_slaac(v.addrs, subnet) == Some(i),
        v.addrs[i].state !is Tentative,
        forall|k: int| 0 <= k < prefixes.len() ==> prefix_subnet(#[trigger] prefixes[k]) == subnet,
    ensures
        ({
            let next = slaac_updates(v, prefixes);
            let inner = InnerNdpTimerId::InvalidateSlaacAddress { addr: v.addrs[i].addr_sub.addr };
            &&& next.inv()
            &&& next.clock_ok()
            &&& next.now == v.now
            &&& forall|p: PrefixInformation| #[trigger]
                prefix_subnet(p) == subnet ==> next.slaac_ok(p) && next.formable(p)
            &&& next.addrs.len() == v.addrs.len()
            &&& find_slaac(next.addrs, subnet) == Some(i)
            &&& next.addrs[i].addr_sub == v.addrs[i].addr_sub
            &&& next.addrs[i].state !is Tentative
            &&& next.addrs[i].config->valid_until is Some
            &&& next.addrs[i].config->valid_until->0.nanos >= guarded_until(
                v.now,
                v.addrs[i].config->valid_until->0,
            )
            &&& next.has_timer(inner)
            &&& next.timers[next.timer(inner)] == next.addrs[i].config->valid_until->0
        }),
    decreases prefixes.len(),
{
    lemma_find_slaac(v.addrs, subnet);
    assert(v.addrs[i].config is Slaac);
    if prefixes.len() > 0 {
        let rest = prefixes.drop_last();
        assert forall|k: int| 0 <= k < rest.len() implies prefix_subnet(#[trigger] rest[k])
            == subnet by {
            assert(prefixes[k] == rest[k]);
        }
        advertisements_cannot_cut_short(v, rest, subnet, i);
        let mid = slaac_updates(v, rest);
        let p = prefixes.last();
        assert(prefix_subnet(prefixes[prefixes.len() - 1]) == subnet);
        assert(mid.slaac_ok(p) && mid.formable(p));
        mid.slaac_update_keeps_inv(p);
        lemma_slaac_update_at(mid, p, i);
        let valid = Duration::of_secs(p.valid_lifetime as u64);
        if p.preferred_lifetime <= p.valid_lifetime && subnet.wf() {
            two_hour_rule(mid.now, mid.addrs[i].config->valid_until->0, valid);
        }
    }
}

/// An update of an address that is not tentative changes its entry and no other.
proof fn lemma_slaac_update_at<H: LinkAddress>(v: NdpView<H>, p: PrefixInformation, i: int)
    requires
        v.inv(),
        v.clock_ok(),
        find_slaac(v.addrs, prefix_subnet(p)) == Some(i),
        v.addrs[i].state !is Tentative,
    ensures
        ({
            let next = v.slaac_update(p);
            let until = v.addrs[i].config->valid_until->0;
            let valid = Duration::of_secs(p.valid_lifetime as u64);
            &&& next.now == v.now
            &&& next.retrans_timer == v.retrans_timer
            &&& next.device_id == v.device_id
            &&& next.addrs.len() == v.addrs.len()
            &&& find_slaac(next.addrs, prefix_subnet(p)) == Some(i)
            &&& next.addrs[i].addr_sub == v.addrs[i].addr_sub
            &&& next.addrs[i].state !is Tentative
            &&& next.addrs[i].config is Slaac
            &&& next.addrs[i].config->valid_until is Some
            &&& next.addrs[i].config->valid_until->0 == if p.preferred_lifetime <= p.valid_lifetime
                && prefix_subnet(p).wf() {
                match new_valid_until(v.now, until, valid) {
                    Some(new_until) => new_until,
                    None => until,
                }
            } else {
                until
            }
        }),
{
    let subnet = prefix_subnet(p);
    let next = v.slaac_update(p);
    lemma_find_slaac(v.addrs, subnet);
    assert(v.addrs[i].config is Slaac);
    let addr = v.addrs[i].addr_sub.addr;
    lemma_find_addr(v.addrs, addr);
    assert(find_addr(v.addrs, addr) == Some(i));
    if p.preferred_lifetime <= p.valid_lifetime && subnet.wf() {
        let mid = v.update_preferred(i, p.preferred_lifetime);
        assert(mid.addrs =~= v.addrs.update(i, mid.addrs[i]));
        mid.lemma_entry_kept(v, i);
        lemma_find_addr(mid.addrs, addr);
        assert(mid.addrs[i].addr_sub.addr == addr);
        assert(find_addr(mid.addrs, addr) == Some(i));
        assert(next.addrs =~= v.addrs.update(i, next.addrs[i]));
        let cond = |e: Ipv6AddressEntry|
            e.addr_sub.addr.global() && e.addr_sub.subnet == subnet && e.config is Slaac;
        lemma_first_where(v.addrs, cond);
        assert forall|j: int| 0 <= j < i implies !cond(next.addrs[j]) by {
            assert(next.addrs[j] == v.addrs[j]);
        }
        lemma_first_is(next.addrs, cond, i);
    }
}

/// A prefix whose preferred lifetime exceeds its valid lifetime is not used for
/// autoconfiguration.
pub proof fn lifetimes_must_agree<H: LinkAddress>(v: NdpView<H>, p: PrefixInformation)
    requires
        p.preferred_lifetime > p.valid_lifetime,
    ensures
        v.slaac_update(p) == v,
{
}

/// No address is formed from a prefix that is not valid or that has the wrong length.
pub proof fn no_address_from_other_prefixes<H: LinkAddress>(v: NdpView<H>, p: PrefixInformation)
    requires
        find_slaac(v.addrs, prefix_subnet(p)) is None,
        p.valid_lifetime == 0 || p.prefix_length != REQUIRED_PREFIX_BITS,
    ensures
        v.slaac_update(p) == v,
{
}

/// A prefix of the right length gives the device an address: the prefix followed by the interface
/// identifier, valid and preferred for as long as advertised.
pub proof fn prefix_gives_address<H: LinkAddress>(v: NdpView<H>, p: PrefixInformation)
    requires
        prefix_subnet(p).wf(),
        find_slaac(v.addrs, prefix_subnet(p)) is None,
        find_addr(v.addrs, global_address(prefix_subnet(p), v.iid).addr) is None,
        0 < p.preferred_lifetime <= p.valid_lifetime,
        p.prefix_length == REQUIRED_PREFIX_BITS,
    ensures
        ({
            let next = v.slaac_update(p);
            let address = global_address(prefix_subnet(p), v.iid);
            let addr = address.addr;
            let until = v.now.after(Duration::of_secs(p.valid_lifetime as u64));
            &&& next.addrs == v.addrs.push(
                Ipv6AddressEntry {
                    addr_sub: address,
                    state: v.initial_state,
                    config: AddrConfig::Slaac { valid_until: Some(until) },
                },
            )
            &&& next.timers[v.timer(InnerNdpTimerId::InvalidateSlaacAddress { addr })] == until
            &&& next.timers[v.timer(InnerNdpTimerId::DeprecateSlaacAddress { addr })]
                == v.now.after(Duration::of_secs(p.preferred_lifetime as u64))
        }),
{
}

/// An advertisement of a prefix that may be used for autoconfiguration gives a host an address.
pub proof fn advertisement_gives_address<H: LinkAddress>(
    v: NdpView<H>,
    src: Ipv6Addr,
    message: RouterAdvertisement,
    options: Vec<NdpOption>,
    draw: Duration,
    p: PrefixInformation,
)
    requires
        src.link_local(),
        !v.is_router_device(),
        options@ == seq![NdpOption::PrefixInformation(p)],
        p.autonomous_address_configuration_flag,
        p.prefix.unicast(),
        !p.prefix.link_local(),
        prefix_subnet(p).wf(),
        find_slaac(v.addrs, prefix_subnet(p)) is None,
        find_addr(v.addrs, global_address(prefix_subnet(p), v.iid).addr) is None,
        0 < p.preferred_lifetime <= p.valid_lifetime,
        p.prefix_length == REQUIRED_PREFIX_BITS,
    ensures
        ({
            let packet = NdpPacket::RouterAdvertisement { message, options };
            let next = v.receive(Ipv6SourceAddr::Unicast(src), packet, draw);
            let address = global_address(prefix_subnet(p), v.iid);
            let addr = address.addr;
            let until = v.now.after(Duration::of_secs(p.valid_lifetime as u64));
            &&& next.addrs == v.addrs.push(
                Ipv6AddressEntry {
                    addr_sub: address,
                    state: v.initial_state,
                    config: AddrConfig::Slaac { valid_until: Some(until) },
                },
            )
            &&& next.timers[v.timer(InnerNdpTimerId::InvalidateSlaacAddress { addr })] == until
            &&& next.timers[v.timer(InnerNdpTimerId::DeprecateSlaacAddress { addr })]
                == v.now.after(Duration::of_secs(p.preferred_lifetime as u64))
        }),
{
    let heard = v.heard_advertiser(src, message, draw);
    lemma_one_option(heard, src, options@);
    prefix_gives_address(heard, p);
    prefix_gives_address(heard.heard_on_link(prefix_subnet(p), p.valid_lifetime), p);
}

/// An autoconfigured address is never deprecated after it became invalid.
pub proof fn deprecation_comes_first<H: LinkAddress>(v: NdpView<H>, addr: Ipv6Addr)
    requires
        v.inv(),
        v.has_timer(InnerNdpTimerId::DeprecateSlaacAddress { addr }),
    ensures
        v.has_timer(InnerNdpTimerId::InvalidateSlaacAddress { addr }),
        v.timers[v.timer(InnerNdpTimerId::DeprecateSlaacAddress { addr })].nanos
            <= v.timers[v.timer(InnerNdpTimerId::InvalidateSlaacAddress { addr })].nanos,
{
    v.preferred_is_slaac(addr);
    let i = choose|i: int|
        0 <= i < v.addrs.len() && (#[trigger] v.addrs[i]).addr_sub.addr == addr
            && v.addrs[i].config is Slaac;
    assert(v.addrs[i].config is Slaac);
}

/// When the timer of an address fires that is deprecated, the address is deprecated, or gone if it
/// was tentative.
pub proof fn address_is_deprecated<H: LinkAddress>(v: NdpView<H>, addr: Ipv6Addr)
    requires
        v.inv(),
        v.has_timer(InnerNdpTimerId::DeprecateSlaacAddress { addr }),
    ensures
        ({
            let next = v.fire(InnerNdpTimerId::DeprecateSlaacAddress { addr });
            let i = find_addr(v.addrs, addr)->0;
            &&& find_addr(v.addrs, addr) is Some
            &&& v.addrs[i].state is Tentative ==> find_addr(next.addrs, addr) is None
            &&& v.addrs[i].state !is Tentative ==> next.addrs == v.addrs.update(
                i,
                Ipv6AddressEntry { state: AddressState::Deprecated, ..v.addrs[i] },
            )
        }),
{
    v.preferred_is_slaac(addr);
    lemma_find_addr(v.addrs, addr);
    let inner = InnerNdpTimerId::DeprecateSlaacAddress { addr };
    v.fire_keeps_inv(inner);
    let next = v.fire(inner);
    let i = find_addr(v.addrs, addr)->0;
    if v.addrs[i].state is Tentative {
        lemma_removed(v.addrs, i, addr);
    }
}

/// When an address becomes invalid it is gone, with its timers.
pub proof fn address_becomes_invalid<H: LinkAddress>(v: NdpView<H>, addr: Ipv6Addr)
    requires
        v.inv(),
        v.has_timer(InnerNdpTimerId::InvalidateSlaacAddress { addr }),
    ensures
        ({
            let next = v.fire(InnerNdpTimerId::InvalidateSlaacAddress { addr });
            &&& find_addr(next.addrs, addr) is None
            &&& !next.has_timer(InnerNdpTimerId::DeprecateSlaacAddress { addr })
            &&& !next.has_timer(InnerNdpTimerId::InvalidateSlaacAddress { addr })
        }),
{
    assert(v.has_slaac(addr));
    lemma_find_addr(v.addrs, addr);
    lemma_removed(v.addrs, find_addr(v.addrs, addr)->0, addr);
}

proof fn lemma_removed(addrs: Seq<Ipv6AddressEntry>, i: int, addr: Ipv6Addr)
    requires
        distinct(addrs),
        0 <= i < addrs.len(),
        addrs[i].addr_sub.addr == addr,
    ensures
        find_addr(addrs.remove(i), addr) is None,
{
    let rest = addrs.remove(i);
    assert forall|j: int, k: int|
        #![trigger rest[j], rest[k]]
        0 <= j < k < rest.len() implies rest[j].addr_sub.addr != rest[k].addr_sub.addr by {
        let j0 = if j < i {
            j
        } else {
            j + 1
        };
        let k0 = if k < i {
            k
        } else {
            k + 1
        };
        assert(addrs[j0].addr_sub.addr != addrs[k0].addr_sub.addr);
    }
    lemma_find_addr(rest, addr);
    assert forall|j: int| 0 <= j < rest.len() implies (#[trigger] rest[j]).addr_sub.addr != addr by {
        if j < i {
            assert(addrs[j].addr_sub.addr != addrs[i].addr_sub.addr);
        } else {
            assert(addrs[i].addr_sub.addr != addrs[j + 1].addr_sub.addr);
        }
    }
}

/// The entry is among those.
pub open spec fn holds_entry(addrs: Seq<Ipv6AddressEntry>, entry: Ipv6AddressEntry) -> bool {
    exists|i: int| 0 <= i < addrs.len() && #[trigger] addrs[i] == entry
}

/// Every entry that was configured by hand is still there.
spec fn keeps_manual(before: Seq<Ipv6AddressEntry>, after: Seq<Ipv6AddressEntry>) -> bool {
    forall|e: Ipv6AddressEntry|
        e.config is Manual && #[trigger] holds_entry(before, e) ==> holds_entry(after, e)
}

proof fn lemma_update_keeps_manual(addrs: Seq<Ipv6AddressEntry>, i: int, e: Ipv6AddressEntry)
    requires
        0 <= i < addrs.len(),
        addrs[i].config is Slaac,
    ensures
        keeps_manual(addrs, addrs.update(i, e)),
        keeps_manual(addrs, addrs.remove(i)),
{
    assert forall|m: Ipv6AddressEntry| m.config is Manual && #[trigger] holds_entry(
        addrs,
        m,
    ) implies holds_entry(addrs.update(i, e), m) && holds_entry(addrs.remove(i), m) by {
        let k = choose|k: int| 0 <= k < addrs.len() && #[trigger] addrs[k] == m;
        assert(addrs.update(i, e)[k] == m);
        if k < i {
            assert(addrs.remove(i)[k] == m);
        } else {
            assert(addrs.remove(i)[k - 1] == m);
        }
    }
}

proof fn lemma_push_keeps_manual(addrs: Seq<Ipv6AddressEntry>, e: Ipv6AddressEntry)
    ensures
        keeps_manual(addrs, addrs.push(e)),
{
    assert forall|m: Ipv6AddressEntry| m.config is Manual && #[trigger] holds_entry(
        addrs,
        m,
    ) implies holds_entry(addrs.push(e), m) by {
        let k = choose|k: int| 0 <= k < addrs.len() && #[trigger] addrs[k] == m;
        assert(addrs.push(e)[k] == m);
    }
}

proof fn lemma_slaac_keeps_manual<H: LinkAddress>(v: NdpView<H>, p: PrefixInformation)
    requires
        v.inv(),
        v.slaac_ok(p),
    ensures
        keeps_manual(v.addrs, v.slaac_update(p).addrs),
{
    let subnet = prefix_subnet(p);
    if p.preferred_lifetime <= p.valid_lifetime && subnet.wf() {
        lemma_find_slaac(v.addrs, subnet);
        match find_slaac(v.addrs, subnet) {
            Some(i) => {
                let entry = v.addrs[i];
                let addr = entry.addr_sub.addr;
                lemma_find_addr(v.addrs, addr);
                assert(find_addr(v.addrs, addr) == Some(i));
                let mid = v.update_preferred(i, p.preferred_lifetime);
                let next = v.slaac_update(p);
                lemma_update_keeps_manual(v.addrs, i, mid.addrs[i]);
                lemma_update_keeps_manual(v.addrs, i, next.addrs[i]);
                if p.preferred_lifetime == 0 && entry.state is Tentative {
                    assert(next == mid);
                } else {
                    assert(mid.addrs =~= v.addrs.update(i, mid.addrs[i]));
                    mid.lemma_entry_kept(v, i);
                    lemma_find_addr(mid.addrs, addr);
                    assert(mid.addrs[i].addr_sub.addr == addr);
                    assert(next.addrs =~= v.addrs.update(i, next.addrs[i]));
                }
            },
            None => {
                let address = global_address(subnet, v.iid);
                let added = v.add_slaac(address, p.valid_lifetime);
                let entry = added.addrs.last();
                let last = v.addrs.len() as int;
                lemma_push_keeps_manual(v.addrs, entry);
                if p.valid_lifetime != 0 && subnet.prefix == REQUIRED_PREFIX_BITS && find_addr(
                    v.addrs,
                    address.addr,
                ) is None && p.preferred_lifetime == 0 {
                    assert(added.addrs[last] == entry);
                    lemma_find_addr(v.addrs, address.addr);
                    assert(distinct(added.addrs)) by {
                        assert forall|j: int, k: int|
                            #![trigger added.addrs[j], added.addrs[k]]
                            0 <= j < k < added.addrs.len() implies added.addrs[j].addr_sub.addr
                            != added.addrs[k].addr_sub.addr by {
                            assert(added.addrs[j] == v.addrs[j]);
                            if k < last {
                                assert(added.addrs[k] == v.addrs[k]);
                            }
                        }
                    }
                    lemma_find_addr(added.addrs, address.addr);
                    assert(find_addr(added.addrs, address.addr) == Some(last));
                    lemma_update_keeps_manual(
                        added.addrs,
                        last,
                        Ipv6AddressEntry { state: AddressState::Deprecated, ..entry },
                    );
                }
            },
        }
    }
}

proof fn lemma_options_keep_manual<H: LinkAddress>(
    v: NdpView<H>,
    src_ip: Ipv6Addr,
    options: Seq<NdpOption>,
)
    requires
        v.inv(),
        v.clock_ok(),
        v.options_ok(src_ip, options),
    ensures
        keeps_manual(v.addrs, v.heard_options(src_ip, options).addrs),
    decreases options.len(),
{
    if options.len() > 0 {
        let rest = options.drop_last();
        lemma_options_keep_manual(v, src_ip, rest);
        v.options_keep_inv(src_ip, rest);
        let mid = v.heard_options(src_ip, rest);
        if let NdpOption::PrefixInformation(p) = options.last() {
            let subnet = prefix_subnet(p);
            let on_link = mid.heard_on_link(subnet, p.valid_lifetime);
            mid.lemma_heard_on_link(subnet, p.valid_lifetime);
            if p.autonomous_address_configuration_flag && subnet.wf() && p.prefix.unicast()
                && !p.prefix.link_local() {
                lemma_slaac_keeps_manual(mid, p);
                assert(on_link.addrs == mid.addrs && on_link.now == mid.now);
                lemma_slaac_keeps_manual(on_link, p);
            }
        }
    }
}

/// No message changes or removes an address that was configured by hand.
pub proof fn manual_addresses_stay<H: LinkAddress>(
    v: NdpView<H>,
    src_ip: Ipv6SourceAddr,
    packet: NdpPacket,
    draw: Duration,
    entry: Ipv6AddressEntry,
)
    requires
        v.inv(),
        v.clock_ok(),
        v.receivable(src_ip, packet),
        draw_ok(packet, draw),
        holds_entry(v.addrs, entry),
        entry.config is Manual,
    ensures
        holds_entry(v.receive(src_ip, packet, draw).addrs, entry),
{
    if let NdpPacket::RouterAdvertisement { message, options } = packet {
        if src_ip is Unicast && src_ip->Unicast_0.link_local() && !v.is_router_device() {
            let src = src_ip->Unicast_0;
            let v1 = v.count(Counter::RxRouterAdvertisement);
            v1.lemma_actions(v);
            v1.lemma_heard_router(src, message.router_lifetime);
            let v2 = v1.heard_router(src, message.router_lifetime);
            v2.lemma_heard_parameters(message, draw);
            v2.parameters_and_options_commute(message, draw, src, options@);
            let v3 = v2.heard_parameters(message, draw);
            lemma_options_keep_manual(v3, src, options@);
            assert(v3.addrs == v.addrs);
        }
    }
}

/// No timer changes or removes an address that was configured by hand.
pub proof fn timers_spare_manual_addresses<H: LinkAddress>(
    v: NdpView<H>,
    inner: InnerNdpTimerId,
    entry: Ipv6AddressEntry,
)
    requires
        v.inv(),
        v.has_timer(inner),
        holds_entry(v.addrs, entry),
        entry.config is Manual,
    ensures
        holds_entry(v.fire(inner).addrs, entry),
{
    match inner {
        InnerNdpTimerId::DeprecateSlaacAddress { addr } => {
            v.preferred_is_slaac(addr);
            lemma_find_addr(v.addrs, addr);
            let i = find_addr(v.addrs, addr)->0;
            let deprecated = Ipv6AddressEntry { state: AddressState::Deprecated, ..v.addrs[i] };
            lemma_update_keeps_manual(v.addrs, i, deprecated);
        },
        InnerNdpTimerId::InvalidateSlaacAddress { addr } => {
            assert(v.has_slaac(addr));
            lemma_find_addr(v.addrs, addr);
            let i = find_addr(v.addrs, addr)->0;
            lemma_update_keeps_manual(v.addrs, i, v.addrs[i]);
        },
        _ => {},
    }
}

/// A solicitation for a tentative address is not answered. If it comes from the unspecified address,
/// another node is about to use the address, and the device layer is told.
pub proof fn tentative_addresses_are_silent<H: LinkAddress>(
    v: NdpView<H>,
    src_ip: Ipv6SourceAddr,
    target: Ipv6Addr,
    options: Vec<NdpOption>,
    draw: Duration,
)
    requires
        target.unicast(),
        find_addr(v.addrs, target) is Some,
        v.addrs[find_addr(v.addrs, target)->0].state is Tentative,
    ensures
        ({
            let packet = NdpPacket::NeighborSolicitation { target_address: target, options };
            v.receive(src_ip, packet, draw) == if src_ip is Unspecified {
                v.act(NdpAction::DuplicateAddressDetected { addr: target })
            } else {
                v
            }
        }),
{
}

/// When another node advertises a tentative address of the device, the device layer is told, and
/// nothing else happens.
pub proof fn advertised_duplicate_is_reported<H: LinkAddress>(
    v: NdpView<H>,
    src: Ipv6Addr,
    m: NeighborAdvertisement,
    options: Vec<NdpOption>,
    draw: Duration,
)
    requires
        m.target_address.unicast(),
        find_addr(v.addrs, m.target_address) is Some,
        v.addrs[find_addr(v.addrs, m.target_address)->0].state is Tentative,
    ensures
        ({
            let packet = NdpPacket::NeighborAdvertisement { message: m, options };
            v.receive(Ipv6SourceAddr::Unicast(src), packet, draw) == v.act(
                NdpAction::DuplicateAddressDetected { addr: m.target_address },
            )
        }),
{
}

// -- What is sent --

/// A packet has the required hop limit, names no link address if it comes from no address, and an
/// MTU is not too small.
pub open spec fn proper<H>(action: NdpAction<H>) -> bool {
    match action {
        NdpAction::Send { src_ip, hop_limit, option, .. } => {
            &&& hop_limit == REQUIRED_NDP_IP_PACKET_HOP_LIMIT
            &&& src_ip.bits == UNSPECIFIED_ADDRESS ==> option is None
        },
        NdpAction::SetMtu { mtu } => mtu >= MINIMUM_LINK_MTU,
        _ => true,
    }
}

/// The actions are those before and proper ones.
pub open spec fn grows_properly<H>(before: Seq<NdpAction<H>>, after: Seq<NdpAction<H>>) -> bool {
    &&& before.len() <= after.len()
    &&& before == after.take(before.len() as int)
    &&& forall|i: int| before.len() <= i < after.len() ==> proper(#[trigger] after[i])
}

proof fn lemma_grow<H>(a: Seq<NdpAction<H>>, b: Seq<NdpAction<H>>, action: NdpAction<H>)
    requires
        grows_properly(a, b),
        proper(action),
    ensures
        grows_properly(a, b.push(action)),
{
    let c = b.push(action);
    assert(c.take(a.len() as int) =~= b.take(a.len() as int));
}

proof fn lemma_grow_nothing<H>(a: Seq<NdpAction<H>>)
    ensures
        grows_properly(a, a),
{
    assert(a.take(a.len() as int) =~= a);
}

proof fn lemma_grow_twice<H>(
    a: Seq<NdpAction<H>>,
    b: Seq<NdpAction<H>>,
    c: Seq<NdpAction<H>>,
)
    requires
        grows_properly(a, b),
        grows_properly(b, c),
    ensures
        grows_properly(a, c),
{
    assert(a =~= c.take(a.len() as int)) by {
        assert forall|i: int| 0 <= i < a.len() implies a[i] == c[i] by {
            assert(a[i] == b.take(a.len() as int)[i]);
            assert(b[i] == c.take(b.len() as int)[i]);
        }
    }
    assert forall|i: int| a.len() <= i < c.len() implies proper(#[trigger] c[i]) by {
        if i < b.len() {
            assert(b[i] == c.take(b.len() as int)[i]);
        }
    }
}

proof fn lemma_option_grows<H: LinkAddress>(v: NdpView<H>, src_ip: Ipv6Addr, option: NdpOption)
    ensures
        grows_properly(v.actions, v.heard_option(src_ip, option).actions),
{
    lemma_grow_nothing(v.actions);
    match option {
        NdpOption::Mtu(mtu) => {
            if mtu >= MINIMUM_LINK_MTU {
                lemma_grow(v.actions, v.actions, NdpAction::SetMtu { mtu });
            }
        },
        NdpOption::PrefixInformation(p) => {
            let subnet = prefix_subnet(p);
            let on_link = if p.on_link_flag {
                v.heard_on_link(subnet, p.valid_lifetime)
            } else {
                v
            };
            assert(on_link.actions == v.actions);
            lemma_slaac_grows(on_link, p);
        },
        _ => {},
    }
}

proof fn lemma_slaac_grows<H: LinkAddress>(v: NdpView<H>, p: PrefixInformation)
    ensures
        grows_properly(v.actions, v.slaac_update(p).actions),
{
    lemma_grow_nothing(v.actions);
    let subnet = prefix_subnet(p);
    match find_slaac(v.addrs, subnet) {
        Some(i) => {
            let addr = v.addrs[i].addr_sub.addr;
            lemma_grow(v.actions, v.actions, NdpAction::AddressRemoved { addr });
        },
        None => {
            let address = global_address(subnet, v.iid);
            let added = NdpAction::AddressAdded {
                addr: address.addr,
                prefix: address.subnet.prefix,
            };
            lemma_grow(v.actions, v.actions, added);
            lemma_grow(
                v.actions,
                v.actions.push(added),
                NdpAction::AddressRemoved { addr: address.addr },
            );
        },
    }
}

proof fn lemma_options_grow<H: LinkAddress>(
    v: NdpView<H>,
    src_ip: Ipv6Addr,
    options: Seq<NdpOption>,
)
    ensures
        grows_properly(v.actions, v.heard_options(src_ip, options).actions),
    decreases options.len(),
{
    if options.len() == 0 {
        lemma_grow_nothing(v.actions);
    } else {
        lemma_options_grow(v, src_ip, options.drop_last());
        let mid = v.heard_options(src_ip, options.drop_last());
        lemma_option_grows(mid, src_ip, options.last());
        lemma_grow_twice(
            v.actions,
            mid.actions,
            mid.heard_option(src_ip, options.last()).actions,
        );
    }
}

/// Whatever is received, what is sent in answer has the required hop limit, and an MTU that is too
/// small is never set.
pub proof fn answers_are_proper<H: LinkAddress>(
    v: NdpView<H>,
    src_ip: Ipv6SourceAddr,
    packet: NdpPacket,
    draw: Duration,
)
    requires
        v.inv(),
    ensures
        grows_properly(v.actions, v.receive(src_ip, packet, draw).actions),
{
    lemma_grow_nothing(v.actions);
    match packet {
        NdpPacket::RouterAdvertisement { message, options } => {
            if src_ip is Unicast && src_ip->Unicast_0.link_local() {
                let src = src_ip->Unicast_0;
                let counter = Counter::RxRouterAdvertisement;
                let v1 = v.count(counter);
                lemma_grow(v.actions, v.actions, NdpAction::Count(counter));
                let v2 = v1.heard_router(src, message.router_lifetime).heard_parameters(
                    message,
                    draw,
                );
                assert(v2.actions == v1.actions);
                lemma_options_grow(v2, src, options@);
                lemma_grow_twice(v.actions, v2.actions, v2.heard_options(src, options@).actions);
            }
        },
        NdpPacket::NeighborSolicitation { target_address, options } => {
            let duplicate = NdpAction::DuplicateAddressDetected { addr: target_address };
            lemma_grow(v.actions, v.actions, duplicate);
            let count = NdpAction::Count(Counter::RxNeighborSolicitation);
            lemma_grow(v.actions, v.actions, count);
            let next = v.receive(src_ip, packet, draw);
            if target_address.unicast() && next.actions.len() == v.actions.len() + 2 {
                lemma_grow(v.actions, v.actions.push(count), next.actions.last());
                assert(next.actions =~= v.actions.push(count).push(next.actions.last()));
            }
        },
        NdpPacket::NeighborAdvertisement { message, options } => {
            let duplicate = NdpAction::DuplicateAddressDetected { addr: message.target_address };
            lemma_grow(v.actions, v.actions, duplicate);
            let count = NdpAction::Count(Counter::RxNeighborAdvertisement);
            lemma_grow(v.actions, v.actions, count);
            let next = v.receive(src_ip, packet, draw);
            if next.actions.len() == v.actions.len() + 2 {
                lemma_grow(v.actions, v.actions.push(count), next.actions.last());
                assert(next.actions =~= v.actions.push(count).push(next.actions.last()));
            }
        },
        _ => {},
    }
}

/// Whatever timer fires and whatever is looked up, what is sent has the required hop limit, and
/// names no link address if it comes from no address.
pub proof fn requests_are_proper<H: LinkAddress>(
    v: NdpView<H>,
    inner: InnerNdpTimerId,
    addr: Ipv6Addr,
)
    requires
        v.inv(),
    ensures
        grows_properly(v.actions, v.fire(inner).actions),
        grows_properly(v.actions, v.lookup(addr).actions),
{
    lemma_grow_nothing(v.actions);
    lemma_source_addr(v);
    let looked = v.lookup(addr);
    if looked.actions.len() > v.actions.len() {
        lemma_grow(v.actions, v.actions, looked.actions.last());
        assert(looked.actions =~= v.actions.push(looked.actions.last()));
    }
    let fired = v.fire(inner);
    if fired.actions.len() == v.actions.len() + 1 {
        lemma_grow(v.actions, v.actions, fired.actions.last());
        assert(fired.actions =~= v.actions.push(fired.actions.last()));
    } else if fired.actions.len() == v.actions.len() + 2 {
        let first = fired.actions[v.actions.len() as int];
        lemma_grow(v.actions, v.actions, first);
        lemma_grow(v.actions, v.actions.push(first), fired.actions.last());
        assert(fired.actions =~= v.actions.push(first).push(fired.actions.last()));
    }
}

} // verus!
