//! What each message changes, field by field.

use crate::ndp::model::{
    draw_ok, first_where, lemma_first_where, link_option, source_addr, usable_global,
    usable_link_local, NdpView, MAX_MULTICAST_SOLICIT, MAX_RTR_SOLICITATION_DELAY,
    MIN_PREFIX_VALID_LIFETIME_FOR_UPDATE, REQUIRED_PREFIX_BITS, RTR_SOLICITATION_INTERVAL,
};
use crate::ndp::packet::{
    Counter, LinkOption, NdpAction, NdpMessage, NdpOption, NdpPacket, NeighborAdvertisement,
    PrefixInformation, RouterAdvertisement, INFINITE_LIFETIME, MINIMUM_LINK_MTU,
    REQUIRED_NDP_IP_PACKET_HOP_LIMIT,
};
use crate::ndp::safety::lemma_find_addr;
use crate::ndp::state::{
    in_reachable_range, with_link_address, with_router_flag, Ipv6AddressEntry, NeighborEntryState,
    NeighborState, HOP_LIMIT_DEFAULT, REACHABLE_TIME_DEFAULT, RETRANS_TIMER_DEFAULT,
};
use crate::ndp::timer::{InnerNdpTimerId, NdpTimerId};
use crate::net::addr::{Ipv6Addr, Ipv6SourceAddr, Subnet};
use crate::net::link::LinkAddress;
use crate::net::time::{Duration, Instant};
use vstd::prelude::*;

verus! {

// -- Router Advertisements --

/// An advertisement without options is counted, makes its sender a default router for the lifetime
/// that it gives or takes that away, marks the sender's entry as a router's, and sets the
/// parameters that it specifies. It changes nothing else.
pub proof fn bare_advertisement<H: LinkAddress>(
    v: NdpView<H>,
    src: Ipv6Addr,
    message: RouterAdvertisement,
    options: Vec<NdpOption>,
    draw: Duration,
    next: NdpView<H>,
)
    requires
        src.link_local(),
        !(v.is_router && v.routing_enabled),
        next == v.receive(
            Ipv6SourceAddr::Unicast(src),
            NdpPacket::RouterAdvertisement { message, options },
            draw,
        ),
        options@.len() == 0,
    ensures
        ({
            let id = NdpTimerId {
                device_id: v.device_id,
                inner: InnerNdpTimerId::RouterInvalidation { ip: src },
            };
            next == NdpView {
                actions: v.actions.push(NdpAction::Count(Counter::RxRouterAdvertisement)),
                default_routers: if message.router_lifetime > 0 {
                    v.default_routers.insert(src)
                } else {
                    v.default_routers.remove(src)
                },
                timers: if message.router_lifetime > 0 {
                    v.timers.insert(
                        id,
                        v.now.after(Duration::of_secs(message.router_lifetime as u64)),
                    )
                } else if v.default_routers.contains(src) {
                    v.timers.remove(id)
                } else {
                    v.timers
                },
                neighbors: next.neighbors,
                base_reachable_time: if message.reachable_time > 0 {
                    Duration::of_millis(message.reachable_time as u64)
                } else {
                    v.base_reachable_time
                },
                reachable_time: next.reachable_time,
                retrans_timer: if message.retransmit_timer > 0 {
                    Duration::of_millis(message.retransmit_timer as u64)
                } else {
                    v.retrans_timer
                },
                default_hop_limit: if message.current_hop_limit > 0 {
                    message.current_hop_limit
                } else {
                    v.default_hop_limit
                },
                ..v
            }
        }),
        next.neighbors.dom() == v.neighbors.dom(),
        forall|a: Ipv6Addr| #[trigger]
            v.neighbors.dom().contains(a) ==> next.neighbors[a] == if a == src {
                NeighborState { is_router: true, ..v.neighbors[a] }
            } else {
                v.neighbors[a]
            },
        message.reachable_time == 0 || Duration::of_millis(message.reachable_time as u64)
            == v.base_reachable_time ==> next.reachable_time == v.reachable_time,
        message.reachable_time > 0 && Duration::of_millis(message.reachable_time as u64)
            != v.base_reachable_time && draw.nanos < Duration::of_millis(
            message.reachable_time as u64,
        ).nanos ==> next.reachable_time.nanos == Duration::of_millis(
            message.reachable_time as u64,
        ).nanos / 2 + draw.nanos,
{
    assert(next.default_routers =~= if message.router_lifetime > 0 {
        v.default_routers.insert(src)
    } else {
        v.default_routers.remove(src)
    });
    assert(next.neighbors.dom() =~= v.neighbors.dom());
}

proof fn lemma_push<H: LinkAddress>(
    v: NdpView<H>,
    src: Ipv6Addr,
    options: Seq<NdpOption>,
    option: NdpOption,
)
    ensures
        v.heard_options(src, options.push(option)) == v.heard_options(src, options).heard_option(
            src,
            option,
        ),
{
    assert(options.push(option).drop_last() =~= options);
}

/// The options of an advertisement are heard one after the other, all of them.
pub proof fn options_are_heard_in_turn<H: LinkAddress>(
    v: NdpView<H>,
    src: Ipv6Addr,
    options: Seq<NdpOption>,
    more: Seq<NdpOption>,
)
    ensures
        v.heard_options(src, options + more) == v.heard_options(src, options).heard_options(
            src,
            more,
        ),
        more.len() == 1 ==> v.heard_options(src, more) == v.heard_option(src, more[0]),
        more.len() == 0 ==> v.heard_options(src, more) == v,
    decreases more.len(),
{
    if more.len() == 0 {
        assert(options + more =~= options);
    } else {
        let rest = more.drop_last();
        options_are_heard_in_turn(v, src, options, rest);
        assert((options + more) =~= (options + rest).push(more.last()));
        lemma_push(v, src, options + rest, more.last());
        if more.len() == 1 {
            assert(rest =~= Seq::empty());
            lemma_push(v, src, rest, more[0]);
            assert(more =~= rest.push(more[0]));
            assert(v.heard_options(src, rest) == v);
        }
    }
}

/// One more option with an MTU has that MTU set, unless it is less than every IPv6 link must have,
/// and changes nothing else.
pub proof fn one_more_mtu<H: LinkAddress>(
    v: NdpView<H>,
    src: Ipv6Addr,
    message: RouterAdvertisement,
    options: Vec<NdpOption>,
    more: Vec<NdpOption>,
    draw: Duration,
    before: NdpView<H>,
    after: NdpView<H>,
    mtu: u32,
)
    requires
        src.link_local(),
        !(v.is_router && v.routing_enabled),
        before == v.receive(
            Ipv6SourceAddr::Unicast(src),
            NdpPacket::RouterAdvertisement { message, options },
            draw,
        ),
        after == v.receive(
            Ipv6SourceAddr::Unicast(src),
            NdpPacket::RouterAdvertisement { message, options: more },
            draw,
        ),
        more@ == options@.push(NdpOption::Mtu(mtu)),
    ensures
        mtu >= 1280 ==> after == (NdpView {
            actions: before.actions.push(NdpAction::SetMtu { mtu }),
            ..before
        }),
        mtu < 1280 ==> after == before,
{
    lemma_push(v.heard_advertiser(src, message, draw), src, options@, NdpOption::Mtu(mtu));
}

/// One more option that hosts do not use changes nothing.
pub proof fn one_more_unused_option<H: LinkAddress>(
    v: NdpView<H>,
    src: Ipv6Addr,
    message: RouterAdvertisement,
    options: Vec<NdpOption>,
    more: Vec<NdpOption>,
    draw: Duration,
    before: NdpView<H>,
    after: NdpView<H>,
    option: NdpOption,
)
    requires
        src.link_local(),
        !(v.is_router && v.routing_enabled),
        before == v.receive(
            Ipv6SourceAddr::Unicast(src),
            NdpPacket::RouterAdvertisement { message, options },
            draw,
        ),
        after == v.receive(
            Ipv6SourceAddr::Unicast(src),
            NdpPacket::RouterAdvertisement { message, options: more },
            draw,
        ),
        more@ == options@.push(option),
        option is TargetLinkLayerAddress || option is Other,
    ensures
        after == before,
{
    lemma_push(v.heard_advertiser(src, message, draw), src, options@, option);
}

/// One more option with the sender's link address has the sender known by it, as a router. The
/// entry becomes stale if the link address is a new one. Nothing else changes.
pub proof fn one_more_link_address<H: LinkAddress>(
    v: NdpView<H>,
    src: Ipv6Addr,
    message: RouterAdvertisement,
    options: Vec<NdpOption>,
    more: Vec<NdpOption>,
    draw: Duration,
    before: NdpView<H>,
    after: NdpView<H>,
    bytes: Vec<u8>,
)
    requires
        src.link_local(),
        !(v.is_router && v.routing_enabled),
        before == v.receive(
            Ipv6SourceAddr::Unicast(src),
            NdpPacket::RouterAdvertisement { message, options },
            draw,
        ),
        after == v.receive(
            Ipv6SourceAddr::Unicast(src),
            NdpPacket::RouterAdvertisement { message, options: more },
            draw,
        ),
        more@ == options@.push(NdpOption::SourceLinkLayerAddress(bytes)),
    ensures
        ({
            let ll = H::of_bytes(bytes@.take(H::length() as int));
            after == NdpView {
                neighbors: before.neighbors.insert(
                    src,
                    NeighborState {
                        is_router: true,
                        state: if before.neighbors.dom().contains(src)
                            && before.neighbors[src].link_address == Some(ll) {
                            before.neighbors[src].state
                        } else {
                            NeighborEntryState::Stale
                        },
                        link_address: Some(ll),
                    },
                ),
                ..before
            }
        }),
{
    let heard = v.heard_advertiser(src, message, draw);
    let option = NdpOption::SourceLinkLayerAddress(bytes);
    lemma_push(heard, src, options@, option);
    let ll = H::of_bytes(bytes@.take(H::length() as int));
    let n = heard.heard_options(src, options@).neighbors;
    assert(before.neighbors.dom().contains(src) == n.dom().contains(src));
    assert(after.neighbors =~= before.neighbors.insert(src, after.neighbors[src]));
}

// -- Prefixes --

proof fn lemma_slaac_and_neighbors<H: LinkAddress>(
    v: NdpView<H>,
    p: PrefixInformation,
    neighbors: Map<Ipv6Addr, NeighborState<H>>,
)
    ensures
        (NdpView { neighbors, ..v }).slaac_update(p) == (NdpView {
            neighbors,
            ..v.slaac_update(p)
        }),
        v.slaac_update(p).neighbors == v.neighbors,
{
}

/// One more option with a prefix. A prefix that is not a proper subnet, not unicast or link-local
/// changes nothing. Another one is on the link for the lifetime that it gives, forever or no more,
/// if it is flagged so; then it is used for autoconfiguration, if it is flagged so.
pub proof fn one_more_prefix<H: LinkAddress>(
    v: NdpView<H>,
    src: Ipv6Addr,
    message: RouterAdvertisement,
    options: Vec<NdpOption>,
    more: Vec<NdpOption>,
    draw: Duration,
    before: NdpView<H>,
    after: NdpView<H>,
    p: PrefixInformation,
)
    requires
        src.link_local(),
        !(v.is_router && v.routing_enabled),
        before == v.receive(
            Ipv6SourceAddr::Unicast(src),
            NdpPacket::RouterAdvertisement { message, options },
            draw,
        ),
        after == v.receive(
            Ipv6SourceAddr::Unicast(src),
            NdpPacket::RouterAdvertisement { message, options: more },
            draw,
        ),
        more@ == options@.push(NdpOption::PrefixInformation(p)),
    ensures
        ({
            let subnet = Subnet { network: p.prefix, prefix: p.prefix_length };
            let proper = subnet.wf() && p.prefix.unicast() && !p.prefix.link_local();
            let id = NdpTimerId {
                device_id: v.device_id,
                inner: InnerNdpTimerId::PrefixInvalidation { subnet },
            };
            let mid = if p.on_link_flag {
                NdpView {
                    on_link_prefixes: if p.valid_lifetime > 0 {
                        before.on_link_prefixes.insert(subnet)
                    } else {
                        before.on_link_prefixes.remove(subnet)
                    },
                    timers: if 0 < p.valid_lifetime < 0xffff_ffff {
                        before.timers.insert(
                            id,
                            v.now.after(Duration::of_secs(p.valid_lifetime as u64)),
                        )
                    } else if p.valid_lifetime == 0xffff_ffff || before.on_link_prefixes.contains(
                        subnet,
                    ) {
                        before.timers.remove(id)
                    } else {
                        before.timers
                    },
                    ..before
                }
            } else {
                before
            };
            after == if !proper {
                before
            } else if p.autonomous_address_configuration_flag {
                mid.slaac_update(p)
            } else {
                mid
            }
        }),
{
    let heard = v.heard_advertiser(src, message, draw);
    lemma_push(heard, src, options@, NdpOption::PrefixInformation(p));
    let h = heard.heard_options(src, options@);
    let subnet = Subnet { network: p.prefix, prefix: p.prefix_length };
    let on_link = h.heard_on_link(subnet, p.valid_lifetime);
    assert(before == (NdpView { neighbors: before.neighbors, ..h }));
    lemma_heard_frame(heard, src, options@);
    assert(p.valid_lifetime == 0 ==> on_link.on_link_prefixes =~= h.on_link_prefixes.remove(
        subnet,
    ));
    let mid = if p.on_link_flag {
        on_link
    } else {
        h
    };
    lemma_slaac_and_neighbors(mid, p, before.neighbors);
    assert(mid.neighbors == h.neighbors);
}

proof fn lemma_slaac_frame<H: LinkAddress>(v: NdpView<H>, p: PrefixInformation)
    ensures
        v.slaac_update(p).now == v.now,
        v.slaac_update(p).device_id == v.device_id,
{
}

/// Options do not change the time, or the device.
proof fn lemma_heard_frame<H: LinkAddress>(v: NdpView<H>, src: Ipv6Addr, options: Seq<NdpOption>)
    ensures
        v.heard_options(src, options).now == v.now,
        v.heard_options(src, options).device_id == v.device_id,
    decreases options.len(),
{
    if options.len() > 0 {
        lemma_heard_frame(v, src, options.drop_last());
        let mid = v.heard_options(src, options.drop_last());
        if let NdpOption::PrefixInformation(p) = options.last() {
            let subnet = Subnet { network: p.prefix, prefix: p.prefix_length };
            lemma_slaac_frame(mid, p);
            lemma_slaac_frame(mid.heard_on_link(subnet, p.valid_lifetime), p);
        }
    }
}

/// A prefix that an advertisement puts on the link, among whatever other options, is on the link
/// afterwards, unless a later option takes it off.
pub proof fn advertised_prefixes_are_on_link<H: LinkAddress>(
    v: NdpView<H>,
    src: Ipv6Addr,
    message: RouterAdvertisement,
    options: Vec<NdpOption>,
    draw: Duration,
    next: NdpView<H>,
    k: int,
    p: PrefixInformation,
)
    requires
        src.link_local(),
        !(v.is_router && v.routing_enabled),
        next == v.receive(
            Ipv6SourceAddr::Unicast(src),
            NdpPacket::RouterAdvertisement { message, options },
            draw,
        ),
        0 <= k < options@.len(),
        options@[k] == NdpOption::PrefixInformation(p),
        p.on_link_flag,
        p.valid_lifetime > 0,
        (Subnet { network: p.prefix, prefix: p.prefix_length }).wf(),
        p.prefix.unicast(),
        !p.prefix.link_local(),
        forall|j: int|
            k < j < options@.len() ==> (#[trigger] options@[j] matches NdpOption::PrefixInformation(
                q,
            ) ==> !(q.prefix == p.prefix && q.prefix_length == p.prefix_length && q.on_link_flag
                && q.valid_lifetime == 0)),
    ensures
        next.on_link_prefixes.contains(Subnet { network: p.prefix, prefix: p.prefix_length }),
{
    lemma_on_link(v.heard_advertiser(src, message, draw), src, options@, k, p);
}

proof fn lemma_slaac_on_link<H: LinkAddress>(v: NdpView<H>, p: PrefixInformation)
    ensures
        v.slaac_update(p).on_link_prefixes == v.on_link_prefixes,
{
}

proof fn lemma_on_link<H: LinkAddress>(
    v: NdpView<H>,
    src: Ipv6Addr,
    options: Seq<NdpOption>,
    k: int,
    p: PrefixInformation,
)
    requires
        0 <= k < options.len(),
        options[k] == NdpOption::PrefixInformation(p),
        p.on_link_flag,
        p.valid_lifetime > 0,
        (Subnet { network: p.prefix, prefix: p.prefix_length }).wf(),
        p.prefix.unicast(),
        !p.prefix.link_local(),
        forall|j: int|
            k < j < options.len() ==> (#[trigger] options[j] matches NdpOption::PrefixInformation(q)
                ==> !(q.prefix == p.prefix && q.prefix_length == p.prefix_length && q.on_link_flag
                && q.valid_lifetime == 0)),
    ensures
        v.heard_options(src, options).on_link_prefixes.contains(
            Subnet { network: p.prefix, prefix: p.prefix_length },
        ),
    decreases options.len(),
{
    let n = options.len() - 1;
    let rest = options.drop_last();
    let mid = v.heard_options(src, rest);
    let subnet = Subnet { network: p.prefix, prefix: p.prefix_length };
    if k == n {
        lemma_slaac_on_link(mid.heard_on_link(subnet, p.valid_lifetime), p);
    } else {
        assert(forall|j: int| 0 <= j < rest.len() ==> rest[j] == options[j]);
        lemma_on_link(v, src, rest, k, p);
        if let NdpOption::PrefixInformation(q) = options[n] {
            let other = Subnet { network: q.prefix, prefix: q.prefix_length };
            lemma_slaac_on_link(mid, q);
            lemma_slaac_on_link(mid.heard_on_link(other, q.valid_lifetime), q);
        }
    }
}

// -- Neighbor Solicitations --

/// The link address that a message carries is that of the first option of the right kind that is
/// long enough.
pub proof fn first_link_address_counts<H: LinkAddress>(options: Seq<NdpOption>)
    ensures
        match link_option::<H>(options, true) {
            Some(ll) => exists|i: int|
                0 <= i < options.len() && (#[trigger] options[i] matches
                    NdpOption::SourceLinkLayerAddress(a) && a@.len() >= H::length() && ll
                    == H::of_bytes(a@.take(H::length() as int))) && forall|j: int|
                    0 <= j < i ==> (#[trigger] options[j] matches
                        NdpOption::SourceLinkLayerAddress(a) ==> a@.len() < H::length()),
            None => forall|j: int|
                0 <= j < options.len() ==> (#[trigger] options[j] matches
                    NdpOption::SourceLinkLayerAddress(a) ==> a@.len() < H::length()),
        },
        match link_option::<H>(options, false) {
            Some(ll) => exists|i: int|
                0 <= i < options.len() && (#[trigger] options[i] matches
                    NdpOption::TargetLinkLayerAddress(a) && a@.len() >= H::length() && ll
                    == H::of_bytes(a@.take(H::length() as int))) && forall|j: int|
                    0 <= j < i ==> (#[trigger] options[j] matches
                        NdpOption::TargetLinkLayerAddress(a) ==> a@.len() < H::length()),
            None => forall|j: int|
                0 <= j < options.len() ==> (#[trigger] options[j] matches
                    NdpOption::TargetLinkLayerAddress(a) ==> a@.len() < H::length()),
        },
    decreases options.len(),
{
    if options.len() > 0 {
        let rest = options.drop_first();
        first_link_address_counts::<H>(rest);
        assert(forall|j: int| 0 < j < options.len() ==> #[trigger] options[j] == rest[j - 1]);
        assert(forall|j: int| 0 <= j < rest.len() ==> #[trigger] rest[j] == options[j + 1]);
        if link_option::<H>(options, true) is Some && link_option::<H>(rest, true)
            == link_option::<H>(options, true) {
            let ll = link_option::<H>(options, true)->0;
            if options[0] matches NdpOption::SourceLinkLayerAddress(a) && a@.len() >= H::length() {
                assert(options[0] is SourceLinkLayerAddress);
            } else {
                let i = choose|i: int|
                    0 <= i < rest.len() && (#[trigger] rest[i] matches
                        NdpOption::SourceLinkLayerAddress(a) && a@.len() >= H::length() && ll
                        == H::of_bytes(a@.take(H::length() as int))) && forall|j: int|
                        0 <= j < i ==> (#[trigger] rest[j] matches
                            NdpOption::SourceLinkLayerAddress(a) ==> a@.len() < H::length());
                assert(options[i + 1] == rest[i]);
            }
        }
        if link_option::<H>(options, false) is Some && link_option::<H>(rest, false)
            == link_option::<H>(options, false) {
            let ll = link_option::<H>(options, false)->0;
            if options[0] matches NdpOption::TargetLinkLayerAddress(a) && a@.len() >= H::length() {
                assert(options[0] is TargetLinkLayerAddress);
            } else {
                let i = choose|i: int|
                    0 <= i < rest.len() && (#[trigger] rest[i] matches
                        NdpOption::TargetLinkLayerAddress(a) && a@.len() >= H::length() && ll
                        == H::of_bytes(a@.take(H::length() as int))) && forall|j: int|
                        0 <= j < i ==> (#[trigger] rest[j] matches
                            NdpOption::TargetLinkLayerAddress(a) ==> a@.len() < H::length());
                assert(options[i + 1] == rest[i]);
            }
        }
    }
}

/// A solicitation for a usable address of the device is counted and answered. From a unicast
/// address and with the sender's link address, it has the sender known by that: a look-up finds it,
/// whether or not the sender was known before, and the entry becomes stale if the link address is a
/// new one. Nothing else changes.
pub proof fn solicitation_teaches_link_address<H: LinkAddress>(
    v: NdpView<H>,
    src: Ipv6Addr,
    target: Ipv6Addr,
    options: Vec<NdpOption>,
    draw: Duration,
    next: NdpView<H>,
    i: int,
)
    requires
        v.inv(),
        target.unicast(),
        0 <= i < v.addrs.len(),
        v.addrs[i].addr_sub.addr == target,
        v.addrs[i].state !is Tentative,
        next == v.receive(
            Ipv6SourceAddr::Unicast(src),
            NdpPacket::NeighborSolicitation { target_address: target, options },
            draw,
        ),
    ensures
        next == (NdpView {
            neighbors: next.neighbors,
            actions: v.actions.push(NdpAction::Count(Counter::RxNeighborSolicitation)).push(
                NdpAction::Send {
                    src_ip: target,
                    dst_ip: src,
                    hop_limit: 255,
                    message: NdpMessage::NeighborAdvertisement(
                        NeighborAdvertisement {
                            router_flag: v.is_router && v.routing_enabled,
                            solicited_flag: true,
                            override_flag: false,
                            target_address: target,
                        },
                    ),
                    option: Some(LinkOption::TargetLinkLayerAddress(v.link_addr)),
                },
            ),
            ..v
        }),
        match link_option::<H>(options@, true) {
            None => next.neighbors == v.neighbors,
            Some(ll) => {
                &&& next.lookup_result(src) == Some(ll)
                &&& next.neighbors.dom() == v.neighbors.dom().insert(src)
                &&& next.neighbors[src].link_address == Some(ll)
                &&& next.neighbors[src].is_router == (v.neighbors.dom().contains(src)
                    && v.neighbors[src].is_router)
                &&& v.neighbors.dom().contains(src) && v.neighbors[src].link_address == Some(ll)
                    ==> next.neighbors[src].state == v.neighbors[src].state
                &&& !(v.neighbors.dom().contains(src) && v.neighbors[src].link_address == Some(ll))
                    ==> next.neighbors[src].state is Stale
                &&& forall|a: Ipv6Addr|
                    a != src && #[trigger] v.neighbors.dom().contains(a) ==> next.neighbors[a]
                        == v.neighbors[a]
            },
        },
{
    lemma_find_addr(v.addrs, target);
    if let Some(ll) = link_option::<H>(options@, true) {
        assert(next.neighbors.dom() =~= v.neighbors.dom().insert(src));
    }
}

/// A solicitation from no address for a usable address of the device is counted and answered to all
/// nodes, and changes nothing else.
pub proof fn anonymous_solicitation<H: LinkAddress>(
    v: NdpView<H>,
    target: Ipv6Addr,
    options: Vec<NdpOption>,
    draw: Duration,
    i: int,
)
    requires
        v.inv(),
        target.unicast(),
        0 <= i < v.addrs.len(),
        v.addrs[i].addr_sub.addr == target,
        v.addrs[i].state !is Tentative,
    ensures
        v.receive(
            Ipv6SourceAddr::Unspecified,
            NdpPacket::NeighborSolicitation { target_address: target, options },
            draw,
        ) == (NdpView {
            actions: v.actions.push(NdpAction::Count(Counter::RxNeighborSolicitation)).push(
                NdpAction::Send {
                    src_ip: target,
                    dst_ip: Ipv6Addr { bits: 0xff02_0000_0000_0000_0000_0000_0000_0001 },
                    hop_limit: 255,
                    message: NdpMessage::NeighborAdvertisement(
                        NeighborAdvertisement {
                            router_flag: v.is_router && v.routing_enabled,
                            solicited_flag: false,
                            override_flag: false,
                            target_address: target,
                        },
                    ),
                    option: Some(LinkOption::TargetLinkLayerAddress(v.link_addr)),
                },
            ),
            ..v
        }),
{
    lemma_find_addr(v.addrs, target);
}

/// A solicitation for a tentative address is not answered; one from no address tells of a
/// duplicate. A solicitation for an address that is not the device's changes nothing.
pub proof fn solicitation_without_answer<H: LinkAddress>(
    v: NdpView<H>,
    src_ip: Ipv6SourceAddr,
    target: Ipv6Addr,
    options: Vec<NdpOption>,
    draw: Duration,
    next: NdpView<H>,
)
    requires
        v.inv(),
        forall|i: int|
            0 <= i < v.addrs.len() && (#[trigger] v.addrs[i]).addr_sub.addr == target
                ==> v.addrs[i].state is Tentative,
        next == v.receive(
            src_ip,
            NdpPacket::NeighborSolicitation { target_address: target, options },
            draw,
        ),
    ensures
        next == if src_ip is Unspecified && target.unicast() && exists|i: int|
            0 <= i < v.addrs.len() && (#[trigger] v.addrs[i]).addr_sub.addr == target {
            NdpView {
                actions: v.actions.push(NdpAction::DuplicateAddressDetected { addr: target }),
                ..v
            }
        } else {
            v
        },
{
    lemma_find_addr(v.addrs, target);
}

// -- Neighbor Advertisements --

/// An advertisement from a neighbor whose link address is known. Without a link address, or with
/// the known one, it keeps the link address, takes the router flag, and makes the neighbor
/// reachable if it is solicited; its state stays if not. With another link address it has an effect
/// on that only with the override flag: then the address is taken, and the neighbor is reachable if
/// the advertisement is solicited and stale if not. Without the flag, a reachable neighbor becomes
/// stale. A link-local neighbor that ceases to be a router is no default router any more. Nothing
/// else changes.
pub proof fn known_neighbor_advertises<H: LinkAddress>(
    v: NdpView<H>,
    src: Ipv6Addr,
    m: NeighborAdvertisement,
    options: Vec<NdpOption>,
    draw: Duration,
    next: NdpView<H>,
)
    requires
        v.inv(),
        m.target_address.unicast(),
        forall|i: int|
            0 <= i < v.addrs.len() ==> (#[trigger] v.addrs[i]).addr_sub.addr != m.target_address,
        v.neighbors.dom().contains(src),
        v.neighbors[src].state !is Incomplete,
        next == v.receive(
            Ipv6SourceAddr::Unicast(src),
            NdpPacket::NeighborAdvertisement { message: m, options },
            draw,
        ),
    ensures
        ({
            let was = v.neighbors[src];
            let now = next.neighbors[src];
            let told = link_option::<H>(options@, false);
            let same = told is None || told == was.link_address;
            &&& next.neighbors.dom() == v.neighbors.dom()
            &&& forall|a: Ipv6Addr|
                a != src && #[trigger] v.neighbors.dom().contains(a) ==> next.neighbors[a]
                    == v.neighbors[a]
            &&& same ==> now.link_address == was.link_address && now.is_router == m.router_flag
            &&& same && m.solicited_flag ==> now.state is Reachable
            &&& same && !m.solicited_flag ==> now.state == was.state
            &&& !same && m.override_flag ==> now.link_address == told && now.is_router
                == m.router_flag
            &&& !same && m.override_flag && m.solicited_flag ==> now.state is Reachable
            &&& !same && m.override_flag && !m.solicited_flag ==> now.state is Stale
            &&& !same && !m.override_flag ==> now.link_address == was.link_address && now.is_router
                == was.is_router
            &&& !same && !m.override_flag && was.state is Reachable ==> now.state is Stale
            &&& !same && !m.override_flag && was.state !is Reachable ==> now.state == was.state
            &&& next == NdpView {
                neighbors: next.neighbors,
                default_routers: if was.is_router && !now.is_router && src.link_local() {
                    v.default_routers.remove(src)
                } else {
                    v.default_routers
                },
                actions: v.actions.push(NdpAction::Count(Counter::RxNeighborAdvertisement)),
                ..v
            }
        }),
{
    lemma_find_addr(v.addrs, m.target_address);
    assert(v.neighbors[src].wf());
    assert(next.neighbors.dom() =~= v.neighbors.dom());
}

/// An advertisement with a link address from a neighbor that is being resolved resolves it, and
/// ends its timer; one without, and one from a node that is not known, is counted and no more.
pub proof fn other_neighbor_advertises<H: LinkAddress>(
    v: NdpView<H>,
    src: Ipv6Addr,
    m: NeighborAdvertisement,
    options: Vec<NdpOption>,
    draw: Duration,
    next: NdpView<H>,
)
    requires
        v.inv(),
        m.target_address.unicast(),
        forall|i: int|
            0 <= i < v.addrs.len() ==> (#[trigger] v.addrs[i]).addr_sub.addr != m.target_address,
        v.neighbors.dom().contains(src) ==> v.neighbors[src].state is Incomplete,
        next == v.receive(
            Ipv6SourceAddr::Unicast(src),
            NdpPacket::NeighborAdvertisement { message: m, options },
            draw,
        ),
    ensures
        ({
            let counted = v.actions.push(NdpAction::Count(Counter::RxNeighborAdvertisement));
            match link_option::<H>(options@, false) {
                Some(ll) if v.neighbors.dom().contains(src) => next == NdpView {
                    neighbors: v.neighbors.insert(
                        src,
                        NeighborState {
                            is_router: m.router_flag,
                            state: if m.solicited_flag {
                                NeighborEntryState::Reachable
                            } else {
                                NeighborEntryState::Stale
                            },
                            link_address: Some(ll),
                        },
                    ),
                    timers: v.timers.remove(
                        NdpTimerId {
                            device_id: v.device_id,
                            inner: InnerNdpTimerId::LinkAddressResolution { neighbor_addr: src },
                        },
                    ),
                    actions: counted.push(
                        NdpAction::AddressResolved { address: src, link_address: ll },
                    ),
                    ..v
                },
                _ => next == NdpView { actions: counted, ..v },
            }
        }),
{
    lemma_find_addr(v.addrs, m.target_address);
    if v.neighbors.dom().contains(src) {
        assert(v.neighbors[src].wf());
    }
}

/// An advertisement for a tentative address of the device tells of a duplicate. One for a usable
/// address of the device, one for an address that is not unicast and one from no address changes
/// nothing.
pub proof fn advertisement_of_own_address<H: LinkAddress>(
    v: NdpView<H>,
    src_ip: Ipv6SourceAddr,
    m: NeighborAdvertisement,
    options: Vec<NdpOption>,
    draw: Duration,
    next: NdpView<H>,
)
    requires
        v.inv(),
        !m.target_address.unicast() || src_ip is Unspecified || exists|i: int|
            0 <= i < v.addrs.len() && (#[trigger] v.addrs[i]).addr_sub.addr == m.target_address,
        next == v.receive(
            src_ip,
            NdpPacket::NeighborAdvertisement { message: m, options },
            draw,
        ),
    ensures
        next == if src_ip is Unicast && m.target_address.unicast() && exists|i: int|
            0 <= i < v.addrs.len() && (#[trigger] v.addrs[i]).addr_sub.addr == m.target_address
                && v.addrs[i].state is Tentative {
            NdpView {
                actions: v.actions.push(
                    NdpAction::DuplicateAddressDetected { addr: m.target_address },
                ),
                ..v
            }
        } else {
            v
        },
{
    lemma_find_addr(v.addrs, m.target_address);
}

/// Router Solicitations and Redirects change nothing.
pub proof fn other_messages_change_nothing<H: LinkAddress>(
    v: NdpView<H>,
    src_ip: Ipv6SourceAddr,
    draw: Duration,
)
    ensures
        v.receive(src_ip, NdpPacket::RouterSolicitation, draw) == v,
        v.receive(src_ip, NdpPacket::Redirect, draw) == v,
{
}

/// A link address that is learned, however it is learned, is known afterwards. The neighbor is
/// reachable if that was confirmed; otherwise it becomes stale if the link address is a new one,
/// and stays as it was if not. Whether it is a router does not change, and nor does any other
/// neighbor.
pub proof fn learned_address_is_known<H>(
    neighbors: Map<Ipv6Addr, NeighborState<H>>,
    neighbor: Ipv6Addr,
    address: H,
    is_reachable: bool,
)
    ensures
        ({
            let next = with_link_address(neighbors, neighbor, address, is_reachable);
            let known = neighbors.dom().contains(neighbor);
            &&& next.dom() == neighbors.dom().insert(neighbor)
            &&& next[neighbor].link_address == Some(address)
            &&& next[neighbor].is_router == (known && neighbors[neighbor].is_router)
            &&& is_reachable ==> next[neighbor].state is Reachable
            &&& !is_reachable && !(known && neighbors[neighbor].link_address == Some(address))
                ==> next[neighbor].state is Stale
            &&& !is_reachable && known && neighbors[neighbor].link_address == Some(address)
                ==> next[neighbor].state == neighbors[neighbor].state
            &&& forall|a: Ipv6Addr|
                a != neighbor && #[trigger] neighbors.dom().contains(a) ==> next[a] == neighbors[a]
        }),
{
    let next = with_link_address(neighbors, neighbor, address, is_reachable);
    assert(next.dom() =~= neighbors.dom().insert(neighbor));
}

/// A neighbor that is marked as a router or as none is so, if it is known; nothing else changes.
pub proof fn router_mark_is_set<H>(
    neighbors: Map<Ipv6Addr, NeighborState<H>>,
    ip: Ipv6Addr,
    is_router: bool,
)
    ensures
        ({
            let next = with_router_flag(neighbors, ip, is_router);
            &&& next.dom() == neighbors.dom()
            &&& forall|a: Ipv6Addr| #[trigger]
                neighbors.dom().contains(a) ==> next[a] == if a == ip {
                    NeighborState { is_router, ..neighbors[a] }
                } else {
                    neighbors[a]
                }
        }),
{
    assert(with_router_flag(neighbors, ip, is_router).dom() =~= neighbors.dom());
}

/// A neighbor of which nothing is known is no router, has no link address and is being resolved. An
/// entry is proper just when its link address is missing while it is being resolved and not else.
pub proof fn entries_are_proper<H>(sent: u8, n: NeighborState<H>)
    ensures
        NeighborState::<H>::fresh(sent) == (NeighborState::<H> {
            is_router: false,
            state: NeighborEntryState::Incomplete { transmit_counter: sent },
            link_address: None,
        }),
        n.wf() <==> (n.state is Incomplete <==> n.link_address is None),
{
}

// -- Requests --

/// A device sends from a usable address: the first one with global scope if there is one, or else
/// the first link-local one.
pub proof fn source_is_usable(addrs: Seq<Ipv6AddressEntry>)
    ensures
        match source_addr(addrs) {
            Some(a) => exists|i: int|
                {
                    &&& 0 <= i < addrs.len()
                    &&& (#[trigger] addrs[i]).addr_sub.addr == a
                    &&& addrs[i].state !is Tentative
                    &&& a.global() || a.link_local()
                    &&& a.global() ==> forall|j: int|
                        0 <= j < i ==> (#[trigger] addrs[j]).state is Tentative
                            || !addrs[j].addr_sub.addr.global()
                    &&& !a.global() ==> forall|j: int|
                        0 <= j < addrs.len() ==> (#[trigger] addrs[j]).state is Tentative
                            || !addrs[j].addr_sub.addr.global()
                    &&& !a.global() ==> forall|j: int|
                        0 <= j < i ==> (#[trigger] addrs[j]).state is Tentative
                            || !addrs[j].addr_sub.addr.link_local()
                },
            None => forall|j: int|
                0 <= j < addrs.len() ==> (#[trigger] addrs[j]).state is Tentative || !(
                addrs[j].addr_sub.addr.global() || addrs[j].addr_sub.addr.link_local()),
        },
{
    let g = |e: Ipv6AddressEntry| usable_global(e);
    let l = |e: Ipv6AddressEntry| usable_link_local(e);
    lemma_first_where(addrs, g);
    lemma_first_where(addrs, l);
    match first_where(addrs, g) {
        Some(i) => {
            assert(g(addrs[i]));
            assert forall|j: int| 0 <= j < i implies (#[trigger] addrs[j]).state is Tentative
                || !addrs[j].addr_sub.addr.global() by {
                assert(!g(addrs[j]));
            }
        },
        None => {
            assert forall|j: int| 0 <= j < addrs.len() implies (
            #[trigger] addrs[j]).state is Tentative || !addrs[j].addr_sub.addr.global() by {
                assert(!g(addrs[j]));
            }
            match first_where(addrs, l) {
                Some(i) => {
                    assert(l(addrs[i]));
                    assert forall|j: int| 0 <= j < i implies (
                    #[trigger] addrs[j]).state is Tentative
                        || !addrs[j].addr_sub.addr.link_local() by {
                        assert(!l(addrs[j]));
                    }
                },
                None => {
                    assert forall|j: int| 0 <= j < addrs.len() implies (
                    #[trigger] addrs[j]).state is Tentative
                        || !addrs[j].addr_sub.addr.link_local() by {
                        assert(!l(addrs[j]));
                    }
                },
            }
        },
    }
}

/// A look-up of a neighbor that is known gives its link address and changes nothing. One of another
/// neighbor gives nothing, and starts its resolution: one solicitation is sent, if the device has
/// an address to send from, and a timer is set.
pub proof fn lookup_starts_resolution<H: LinkAddress>(v: NdpView<H>, addr: Ipv6Addr)
    ensures
        v.neighbors.dom().contains(addr) ==> v.lookup(addr) == v && v.lookup_result(addr)
            == v.neighbors[addr].link_address,
        !v.neighbors.dom().contains(addr) ==> v.lookup_result(addr) is None && v.lookup(addr) == (
        NdpView {
            neighbors: v.neighbors.insert(
                addr,
                NeighborState {
                    is_router: false,
                    state: NeighborEntryState::Incomplete { transmit_counter: 1 },
                    link_address: None,
                },
            ),
            timers: v.timers.insert(
                NdpTimerId {
                    device_id: v.device_id,
                    inner: InnerNdpTimerId::LinkAddressResolution { neighbor_addr: addr },
                },
                v.now.after(v.retrans_timer),
            ),
            actions: match source_addr(v.addrs) {
                Some(src_ip) => v.actions.push(
                    NdpAction::Send {
                        src_ip,
                        dst_ip: addr.solicited_node(),
                        hop_limit: 255,
                        message: NdpMessage::NeighborSolicitation { target_address: addr },
                        option: Some(LinkOption::SourceLinkLayerAddress(v.link_addr)),
                    },
                ),
                None => v.actions,
            },
            ..v
        }),
{
}

/// When the timer of a neighbor fires that is being resolved: it is solicited again if fewer than
/// three solicitations were sent, and given up if not.
pub proof fn resolution_goes_on_or_ends<H: LinkAddress>(v: NdpView<H>, addr: Ipv6Addr, sent: u8)
    requires
        v.neighbors.dom().contains(addr),
        v.neighbors[addr].state == (NeighborEntryState::Incomplete { transmit_counter: sent }),
    ensures
        ({
            let inner = InnerNdpTimerId::LinkAddressResolution { neighbor_addr: addr };
            let id = NdpTimerId { device_id: v.device_id, inner };
            let next = v.fire(inner);
            &&& sent < 3 ==> next == NdpView {
                neighbors: v.neighbors.insert(
                    addr,
                    NeighborState {
                        state: NeighborEntryState::Incomplete {
                            transmit_counter: (sent + 1) as u8,
                        },
                        ..v.neighbors[addr]
                    },
                ),
                timers: v.timers.insert(id, v.now.after(v.retrans_timer)),
                actions: match source_addr(v.addrs) {
                    Some(src_ip) => v.actions.push(
                        NdpAction::Send {
                            src_ip,
                            dst_ip: addr.solicited_node(),
                            hop_limit: 255,
                            message: NdpMessage::NeighborSolicitation { target_address: addr },
                            option: Some(LinkOption::SourceLinkLayerAddress(v.link_addr)),
                        },
                    ),
                    None => v.actions,
                },
                ..v
            }
            &&& sent >= 3 ==> next == NdpView {
                neighbors: v.neighbors.remove(addr),
                timers: v.timers.remove(id),
                actions: v.actions.push(
                    NdpAction::Count(Counter::NeighborSolicitationTimer),
                ).push(NdpAction::AddressResolutionFailed { address: addr }),
                ..v
            }
        }),
{
    let inner = InnerNdpTimerId::LinkAddressResolution { neighbor_addr: addr };
    let id = NdpTimerId { device_id: v.device_id, inner };
    assert(v.timers.remove(id).insert(id, v.now.after(v.retrans_timer)) =~= v.timers.insert(
        id,
        v.now.after(v.retrans_timer),
    ));
}

/// When the time has come to solicit routers, one solicitation is sent to all routers: from a
/// usable address and with the device's link address, or from no address and without it. The timer
/// is set again, four seconds on, just when more solicitations are left.
pub proof fn routers_are_solicited_once<H: LinkAddress>(v: NdpView<H>)
    requires
        v.solicitations_remaining > 0,
    ensures
        ({
            let inner = InnerNdpTimerId::RouterSolicitationTransmit;
            let id = NdpTimerId { device_id: v.device_id, inner };
            v.fire(inner) == NdpView {
                solicitations_remaining: (v.solicitations_remaining - 1) as u8,
                timers: if v.solicitations_remaining > 1 {
                    v.timers.insert(id, v.now.after(Duration::of_secs(4)))
                } else {
                    v.timers.remove(id)
                },
                actions: v.actions.push(
                    match source_addr(v.addrs) {
                        Some(src_ip) => NdpAction::Send {
                            src_ip,
                            dst_ip: Ipv6Addr { bits: 0xff02_0000_0000_0000_0000_0000_0000_0002 },
                            hop_limit: 255,
                            message: NdpMessage::RouterSolicitation,
                            option: Some(LinkOption::SourceLinkLayerAddress(v.link_addr)),
                        },
                        None => NdpAction::Send {
                            src_ip: Ipv6Addr { bits: 0 },
                            dst_ip: Ipv6Addr { bits: 0xff02_0000_0000_0000_0000_0000_0000_0002 },
                            hop_limit: 255,
                            message: NdpMessage::RouterSolicitation,
                            option: None,
                        },
                    },
                ),
                ..v
            }
        }),
{
    let inner = InnerNdpTimerId::RouterSolicitationTransmit;
    let id = NdpTimerId { device_id: v.device_id, inner };
    let at = v.now.after(Duration::of_secs(4));
    assert(v.timers.remove(id).insert(id, at) =~= v.timers.insert(id, at));
}

/// To solicit routers from a given address, or from none, sends one message and changes nothing
/// else.
pub proof fn router_solicitation_is_sent<H: LinkAddress>(v: NdpView<H>, src_ip: Option<Ipv6Addr>)
    ensures
        v.solicit_routers(src_ip) == (NdpView {
            actions: v.actions.push(
                NdpAction::Send {
                    src_ip: match src_ip {
                        Some(a) => a,
                        None => Ipv6Addr { bits: 0 },
                    },
                    dst_ip: Ipv6Addr { bits: 0xff02_0000_0000_0000_0000_0000_0000_0002 },
                    hop_limit: 255,
                    message: NdpMessage::RouterSolicitation,
                    option: if src_ip is Some {
                        Some(LinkOption::SourceLinkLayerAddress(v.link_addr))
                    } else {
                        None
                    },
                },
            ),
            ..v
        }),
{
}

/// A device that starts to look for routers has as many solicitations before it as it is configured
/// to send, the first one after the delay; with none, nothing happens. When it stops, none are
/// left.
pub proof fn soliciting_starts_and_stops<H: LinkAddress>(v: NdpView<H>, delay: Duration)
    ensures
        ({
            let id = NdpTimerId {
                device_id: v.device_id,
                inner: InnerNdpTimerId::RouterSolicitationTransmit,
            };
            &&& v.solicitation_limit == 0 ==> v.start_soliciting(delay) == v
            &&& v.solicitation_limit > 0 ==> v.start_soliciting(delay) == NdpView {
                solicitations_remaining: v.solicitation_limit,
                timers: v.timers.insert(id, v.now.after(delay)),
                ..v
            }
            &&& v.stop_soliciting() == NdpView {
                solicitations_remaining: 0,
                timers: v.timers.remove(id),
                ..v
            }
        }),
{
}

/// Messages that are sent on request say what they should: a solicitation of a neighbor asks at its
/// solicited-node address, and an advertisement tells of the device's own link address.
pub proof fn requests_say_what_they_should<H: LinkAddress>(
    v: NdpView<H>,
    solicited: bool,
    target: Ipv6Addr,
    dst_ip: Ipv6Addr,
)
    ensures
        v.advertise(solicited, target, dst_ip) == (NdpView {
            actions: v.actions.push(
                NdpAction::Send {
                    src_ip: target,
                    dst_ip,
                    hop_limit: 255,
                    message: NdpMessage::NeighborAdvertisement(
                        NeighborAdvertisement {
                            router_flag: v.is_router && v.routing_enabled,
                            solicited_flag: solicited,
                            override_flag: false,
                            target_address: target,
                        },
                    ),
                    option: Some(LinkOption::TargetLinkLayerAddress(v.link_addr)),
                },
            ),
            ..v
        }),
        v.solicit_neighbor(target) == (NdpView {
            actions: match source_addr(v.addrs) {
                Some(src_ip) => v.actions.push(
                    NdpAction::Send {
                        src_ip,
                        dst_ip: target.solicited_node(),
                        hop_limit: 255,
                        message: NdpMessage::NeighborSolicitation { target_address: target },
                        option: Some(LinkOption::SourceLinkLayerAddress(v.link_addr)),
                    },
                ),
                None => v.actions,
            },
            ..v
        }),
{
}

/// When the time of a router or of a prefix has passed, it is forgotten, with its timer, and
/// nothing else changes but that a router's entry is marked as a router's no more.
pub proof fn time_passes<H: LinkAddress>(v: NdpView<H>, ip: Ipv6Addr, subnet: Subnet)
    ensures
        ({
            let inner = InnerNdpTimerId::RouterInvalidation { ip };
            let next = v.fire(inner);
            &&& next == NdpView {
                default_routers: v.default_routers.remove(ip),
                timers: v.timers.remove(NdpTimerId { device_id: v.device_id, inner }),
                neighbors: next.neighbors,
                ..v
            }
            &&& next.neighbors.dom() == v.neighbors.dom()
            &&& forall|a: Ipv6Addr| #[trigger]
                v.neighbors.dom().contains(a) ==> next.neighbors[a] == if a == ip {
                    NeighborState { is_router: false, ..v.neighbors[a] }
                } else {
                    v.neighbors[a]
                }
        }),
        ({
            let inner = InnerNdpTimerId::PrefixInvalidation { subnet };
            v.fire(inner) == NdpView {
                on_link_prefixes: v.on_link_prefixes.remove(subnet),
                timers: v.timers.remove(NdpTimerId { device_id: v.device_id, inner }),
                ..v
            }
        }),
{
    let next = v.fire(InnerNdpTimerId::RouterInvalidation { ip });
    assert(next.neighbors.dom() =~= v.neighbors.dom());
}

// -- What can be processed --

/// A timer can fire if it is set, unless what it is about is gone: a neighbor must be being
/// resolved, a router must be a default router, and routers are solicited on a device that is not
/// one itself.
pub proof fn set_timers_can_fire<H: LinkAddress>(v: NdpView<H>, inner: InnerNdpTimerId)
    ensures
        v.fireable(inner) <==> {
            &&& v.timers.dom().contains(NdpTimerId { device_id: v.device_id, inner })
            &&& inner matches InnerNdpTimerId::LinkAddressResolution { neighbor_addr }
                ==> v.neighbors.dom().contains(neighbor_addr)
                && v.neighbors[neighbor_addr].state is Incomplete
            &&& inner is RouterSolicitationTransmit ==> !(v.is_router && v.routing_enabled)
            &&& inner matches InnerNdpTimerId::RouterInvalidation { ip }
                ==> v.default_routers.contains(ip)
        },
{
}

/// Every message can be processed but an advertisement to a host, and a solicitation of a usable
/// address that comes from an address that cannot be answered.
pub proof fn most_messages_can_be_processed<H: LinkAddress>(
    v: NdpView<H>,
    src_ip: Ipv6SourceAddr,
    packet: NdpPacket,
)
    requires
        v.inv(),
    ensures
        packet is RouterSolicitation || packet is NeighborAdvertisement || packet is Redirect
            || src_ip is Unspecified ==> v.receivable(src_ip, packet),
        packet matches NdpPacket::NeighborSolicitation { target_address, options } ==> (
        v.receivable(src_ip, packet) <==> (src_ip is Unspecified
            || src_ip->Unicast_0.valid_unicast() || !target_address.unicast() || forall|i: int|
            0 <= i < v.addrs.len() && (#[trigger] v.addrs[i]).addr_sub.addr == target_address
                ==> v.addrs[i].state is Tentative)),
{
    if let NdpPacket::NeighborSolicitation { target_address, options } = packet {
        lemma_find_addr(v.addrs, target_address);
    }
}

/// A host can process an advertisement with one more option if it can process it without, and the
/// option is not too short and does not deprecate a tentative address whose valid lifetime it would
/// then have to change.
pub proof fn one_more_option_can_be_processed<H: LinkAddress>(
    v: NdpView<H>,
    src: Ipv6Addr,
    message: RouterAdvertisement,
    options: Vec<NdpOption>,
    more: Vec<NdpOption>,
    option: NdpOption,
)
    requires
        src.link_local(),
        !(v.is_router && v.routing_enabled),
        more@ == options@.push(option),
    ensures
        ({
            let without = NdpPacket::RouterAdvertisement { message, options };
            let with = NdpPacket::RouterAdvertisement { message, options: more };
            let src_ip = Ipv6SourceAddr::Unicast(src);
            &&& options@.len() == 0 ==> v.receivable(src_ip, without)
            &&& v.receivable(src_ip, with) ==> v.receivable(src_ip, without)
            &&& option matches NdpOption::SourceLinkLayerAddress(a) ==> (v.receivable(src_ip, with)
                <==> v.receivable(src_ip, without) && a@.len() >= H::length())
            &&& option is TargetLinkLayerAddress || option is Mtu || option is Other ==> (
            v.receivable(src_ip, with) <==> v.receivable(src_ip, without))
            &&& option matches NdpOption::PrefixInformation(p) ==> (p.preferred_lifetime > 0
                || !p.autonomous_address_configuration_flag || !p.prefix.unicast()
                || p.prefix.link_local() ==> (v.receivable(src_ip, with) <==> v.receivable(
                src_ip,
                without,
            )))
        }),
{
    assert(more@.drop_last() =~= options@);
}

/// A host can process an advertisement with one more prefix that may be used for autoconfiguration
/// just when it can process it without, and can then use the prefix.
pub proof fn one_more_prefix_can_be_processed<H: LinkAddress>(
    v: NdpView<H>,
    src: Ipv6Addr,
    message: RouterAdvertisement,
    options: Vec<NdpOption>,
    more: Vec<NdpOption>,
    draw: Duration,
    p: PrefixInformation,
)
    requires
        src.link_local(),
        !(v.is_router && v.routing_enabled),
        more@ == options@.push(NdpOption::PrefixInformation(p)),
        p.autonomous_address_configuration_flag,
        (Subnet { network: p.prefix, prefix: p.prefix_length }).wf(),
        p.prefix.unicast(),
        !p.prefix.link_local(),
    ensures
        ({
            let src_ip = Ipv6SourceAddr::Unicast(src);
            let without = NdpPacket::RouterAdvertisement { message, options };
            let with = NdpPacket::RouterAdvertisement { message, options: more };
            v.receivable(src_ip, with) <==> v.receivable(src_ip, without) && v.receive(
                src_ip,
                without,
                draw,
            ).slaac_ok(p)
        }),
{
    assert(more@.drop_last() =~= options@);
    let v2 = v.count(Counter::RxRouterAdvertisement).heard_router(src, message.router_lifetime);
    v2.parameters_and_options_commute(message, draw, src, options@);
}

/// What is left of an advertisement that a host cannot process is what the options before the one
/// at fault make of it, but for the mark of its sender as a router.
pub proof fn advertisement_is_stopped<H: LinkAddress>(
    v: NdpView<H>,
    src: Ipv6Addr,
    message: RouterAdvertisement,
    options: Vec<NdpOption>,
    draw: Duration,
    next: NdpView<H>,
    count: int,
    before: Vec<NdpOption>,
    with: Vec<NdpOption>,
    after: NdpView<H>,
)
    requires
        src.link_local(),
        !(v.is_router && v.routing_enabled),
        v.stopped_ra(src, message, options@, draw, count) == Some(next),
        before@ == options@.take(count),
        with@ == options@.take(count + 1),
        after == v.receive(
            Ipv6SourceAddr::Unicast(src),
            NdpPacket::RouterAdvertisement { message, options: before },
            draw,
        ),
    ensures
        0 <= count < options@.len(),
        v.receivable(
            Ipv6SourceAddr::Unicast(src),
            NdpPacket::RouterAdvertisement { message, options: before },
        ),
        !v.receivable(
            Ipv6SourceAddr::Unicast(src),
            NdpPacket::RouterAdvertisement { message, options: with },
        ),
        after == (NdpView { neighbors: after.neighbors, ..next }),
        after.neighbors.dom() == next.neighbors.dom(),
        forall|a: Ipv6Addr| #[trigger]
            next.neighbors.dom().contains(a) ==> after.neighbors[a] == if a == src {
                NeighborState { is_router: true, ..next.neighbors[a] }
            } else {
                next.neighbors[a]
            },
        v.stopped(
            next,
            Ipv6SourceAddr::Unicast(src),
            NdpPacket::RouterAdvertisement { message, options },
            draw,
        ),
{
    assert(after.neighbors.dom() =~= next.neighbors.dom());
    let v2 = v.count(Counter::RxRouterAdvertisement).heard_router(src, message.router_lifetime);
    v2.parameters_and_options_commute(message, draw, src, before@);
    v2.parameters_and_options_commute(message, draw, src, with@);
    assert(with@.drop_last() =~= before@);
    assert(with@.last() == options@[count]);
}

/// A message that cannot be processed and is no advertisement changes nothing.
pub proof fn solicitation_is_stopped<H: LinkAddress>(
    v: NdpView<H>,
    src_ip: Ipv6SourceAddr,
    packet: NdpPacket,
    draw: Duration,
    next: NdpView<H>,
)
    requires
        packet !is RouterAdvertisement,
    ensures
        v.stopped(next, src_ip, packet, draw) <==> next == v,
{
}

/// The clock is good as long as it can express the longest lifetime and the retransmission time
/// from now on.
pub proof fn clock_is_good<H: LinkAddress>(v: NdpView<H>)
    ensures
        v.clock_ok() <==> v.now.nanos + 4_294_967_295_000_000_000 <= u128::MAX && v.now.nanos
            + v.retrans_timer.nanos <= u128::MAX,
{
    assert(Duration::of_secs(0xffff_ffff).nanos == 4_294_967_295_000_000_000);
}

/// A draw for a message is good if it is less than the base for the reachable time that the message
/// gives, in nanoseconds.
pub proof fn draw_is_good(packet: NdpPacket, draw: Duration)
    ensures
        draw_ok(packet, draw) <==> match packet {
            NdpPacket::RouterAdvertisement { message, options } => message.reachable_time == 0
                || draw.nanos < message.reachable_time * 1_000_000,
            _ => true,
        },
{
}

/// A reachable time is in its range if it is at least half the base, rounded down, and at most half
/// the base more than the base.
pub proof fn reachable_range(base: Duration, reachable: Duration)
    ensures
        in_reachable_range(base, reachable) <==> base.nanos <= 2 * reachable.nanos + 1 && 2
            * reachable.nanos <= 3 * base.nanos,
{
}

// -- Parts --

/// Timers are set, moved and cancelled one at a time, and actions come one after the other, in
/// order.
pub proof fn one_thing_at_a_time<H: LinkAddress>(
    v: NdpView<H>,
    inner: InnerNdpTimerId,
    at: Instant,
    after: Duration,
    action: NdpAction<H>,
    counter: Counter,
)
    ensures
        ({
            let id = NdpTimerId { device_id: v.device_id, inner };
            &&& v.timer(inner) == id
            &&& v.has_timer(inner) <==> v.timers.dom().contains(id)
            &&& v.schedule_at(inner, at) == NdpView { timers: v.timers.insert(id, at), ..v }
            &&& v.schedule(inner, after) == NdpView {
                timers: v.timers.insert(id, v.now.after(after)),
                ..v
            }
            &&& v.cancel(inner) == NdpView { timers: v.timers.remove(id), ..v }
            &&& v.act(action) == NdpView { actions: v.actions.push(action), ..v }
            &&& v.count(counter) == NdpView {
                actions: v.actions.push(NdpAction::Count(counter)),
                ..v
            }
            &&& v.is_router_device() <==> v.is_router && v.routing_enabled
        }),
{
}

/// What is sent has the hop limit that keeps it from being forwarded, and is sent as asked for.
pub proof fn packets_are_sent<H: LinkAddress>(
    v: NdpView<H>,
    src_ip: Ipv6Addr,
    dst_ip: Ipv6Addr,
    message: NdpMessage,
    option: Option<LinkOption<H>>,
)
    ensures
        v.send(src_ip, dst_ip, message, option) == (NdpView {
            actions: v.actions.push(
                NdpAction::Send { src_ip, dst_ip, hop_limit: 255, message, option },
            ),
            ..v
        }),
{
}

/// The numbers that the protocol fixes (RFC 4861, section 10; RFC 4862, section 5.5.3; RFC 8200,
/// section 5), and the defaults of a device.
pub proof fn numbers_of_the_protocol()
    ensures
        MAX_MULTICAST_SOLICIT == 3,
        RTR_SOLICITATION_INTERVAL == 4,
        MAX_RTR_SOLICITATION_DELAY == 1,
        MIN_PREFIX_VALID_LIFETIME_FOR_UPDATE == 2 * 60 * 60,
        REQUIRED_PREFIX_BITS == 64,
        REQUIRED_NDP_IP_PACKET_HOP_LIMIT == 255,
        MINIMUM_LINK_MTU == 1280,
        INFINITE_LIFETIME == u32::MAX,
        REACHABLE_TIME_DEFAULT == 30,
        RETRANS_TIMER_DEFAULT == 1,
        HOP_LIMIT_DEFAULT == 64,
{
}

} // verus!
