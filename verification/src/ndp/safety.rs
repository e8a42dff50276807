//! What holds of a device at all times, and that everything that happens keeps it so.

use crate::math::{lemma_pow2_128, lemma_pow2_adds, lemma_pow2_grows, pow2};
use crate::ndp::config::MAX_RTR_SOLICITATIONS;
use crate::ndp::model::{
    draw_ok, find_addr, find_slaac, first_where, global_address, lemma_first_where, link_option,
    new_valid_until, prefix_subnet, source_addr, usable_global, usable_link_local, NdpView,
    MAX_MULTICAST_SOLICIT, REQUIRED_PREFIX_BITS,
};
use crate::ndp::packet::{
    Counter, NdpOption, NdpPacket, NeighborAdvertisement, PrefixInformation, RouterAdvertisement,
    INFINITE_LIFETIME,
};
use crate::ndp::state::{
    in_reachable_range, with_link_address, with_router_flag, AddrConfig, AddressState,
    Ipv6AddressEntry, NeighborState,
};
use crate::ndp::timer::InnerNdpTimerId;
use crate::net::addr::{
    be_value, lemma_be_value_bound, AddrSubnet, Ipv6Addr, Ipv6SourceAddr, Subnet,
};
use crate::net::link::LinkAddress;
use crate::net::time::{Duration, Instant};
use vstd::arithmetic::div_mod::{
    lemma_fundamental_div_mod, lemma_mod_multiples_vanish, lemma_small_mod,
};
use vstd::prelude::*;

verus! {

/// No address is there twice.
pub open spec fn distinct(addrs: Seq<Ipv6AddressEntry>) -> bool {
    forall|i: int, j: int|
        #![trigger addrs[i], addrs[j]]
        0 <= i < j < addrs.len() ==> addrs[i].addr_sub.addr != addrs[j].addr_sub.addr
}

impl<H: LinkAddress> NdpView<H> {
    /// A neighbor is incomplete just when its link address is not known, and then it is being
    /// resolved.
    pub open spec fn neighbors_inv(self) -> bool {
        forall|a: Ipv6Addr| #[trigger]
            self.neighbors.dom().contains(a) ==> {
                &&& self.neighbors[a].wf()
                &&& self.neighbors[a].state is Incomplete ==> {
                    &&& 1 <= self.neighbors[a].state->transmit_counter <= MAX_MULTICAST_SOLICIT
                    &&& self.has_timer(InnerNdpTimerId::LinkAddressResolution { neighbor_addr: a })
                }
            }
    }

    /// Every default router will be invalidated, unless it is heard of again.
    pub open spec fn routers_inv(self) -> bool {
        forall|r: Ipv6Addr| #[trigger]
            self.default_routers.contains(r) ==> r.link_local() && self.has_timer(
                InnerNdpTimerId::RouterInvalidation { ip: r },
            )
    }

    /// Only prefixes that are on the link are waiting to be invalidated.
    pub open spec fn prefixes_inv(self) -> bool {
        forall|s: Subnet| #[trigger]
            self.has_timer(InnerNdpTimerId::PrefixInvalidation { subnet: s })
                ==> self.on_link_prefixes.contains(s)
    }

    /// A router solicitation is waiting to be sent just when some are left.
    pub open spec fn solicitations_inv(self) -> bool {
        &&& self.has_timer(InnerNdpTimerId::RouterSolicitationTransmit)
            <==> self.solicitations_remaining > 0
        &&& self.solicitations_remaining <= MAX_RTR_SOLICITATIONS
        &&& self.solicitation_limit <= MAX_RTR_SOLICITATIONS
    }

    /// The times are sensible.
    pub open spec fn times_inv(self) -> bool {
        &&& self.base_reachable_time.nanos > 0
        &&& in_reachable_range(self.base_reachable_time, self.reachable_time)
        &&& self.retrans_timer.nanos > 0
    }

    /// The device's addresses are proper and differ.
    pub open spec fn addrs_inv(self) -> bool {
        &&& distinct(self.addrs)
        &&& forall|i: int|
            0 <= i < self.addrs.len() ==> (#[trigger] self.addrs[i]).addr_sub.wf()
                && self.addrs[i].addr_sub.addr.valid_unicast()
    }

    /// Every autoconfigured address becomes invalid when its entry says so.
    pub open spec fn slaac_inv(self) -> bool {
        forall|i: int|
            0 <= i < self.addrs.len() && (#[trigger] self.addrs[i]).config is Slaac ==> {
                let inner = InnerNdpTimerId::InvalidateSlaacAddress {
                    addr: self.addrs[i].addr_sub.addr,
                };
                &&& self.addrs[i].config->valid_until is Some
                &&& self.has_timer(inner)
                &&& self.timers[self.timer(inner)] == self.addrs[i].config->valid_until->0
            }
    }

    /// The address was autoconfigured on the device.
    pub open spec fn has_slaac(self, a: Ipv6Addr) -> bool {
        exists|i: int|
            0 <= i < self.addrs.len() && (#[trigger] self.addrs[i]).addr_sub.addr == a
                && self.addrs[i].config is Slaac
    }

    /// The address was autoconfigured on the device, and is not deprecated.
    pub open spec fn has_preferred(self, a: Ipv6Addr) -> bool {
        exists|i: int|
            0 <= i < self.addrs.len() && (#[trigger] self.addrs[i]).addr_sub.addr == a
                && self.addrs[i].config is Slaac && self.addrs[i].state !is Deprecated
    }

    /// Only autoconfigured addresses have timers, and they are deprecated before they become
    /// invalid.
    pub open spec fn slaac_timers_inv(self) -> bool {
        &&& forall|a: Ipv6Addr| #[trigger]
            self.has_timer(InnerNdpTimerId::InvalidateSlaacAddress { addr: a }) ==> self.has_slaac(
                a,
            )
        &&& forall|a: Ipv6Addr| #[trigger]
            self.has_timer(InnerNdpTimerId::DeprecateSlaacAddress { addr: a }) ==> {
                &&& self.has_preferred(a)
                &&& self.timers[self.timer(
                    InnerNdpTimerId::DeprecateSlaacAddress { addr: a },
                )].nanos <= self.timers[self.timer(
                    InnerNdpTimerId::InvalidateSlaacAddress { addr: a },
                )].nanos
            }
    }

    /// What holds of a device at all times.
    pub open spec fn inv(self) -> bool {
        &&& self.neighbors_inv()
        &&& self.routers_inv()
        &&& self.prefixes_inv()
        &&& self.solicitations_inv()
        &&& self.times_inv()
        &&& self.addrs_inv()
        &&& self.slaac_inv()
        &&& self.slaac_timers_inv()
        &&& self.iid.len() == 8
        &&& self.initial_state !is Deprecated
        &&& self.default_hop_limit > 0
    }

    /// The clock can express every instant at which a timer may have to fire.
    pub open spec fn clock_ok(self) -> bool {
        &&& self.now.can_add(Duration::of_secs(INFINITE_LIFETIME as u64))
        &&& self.now.can_add(self.retrans_timer)
    }

    /// An address that an advertisement deprecates while it is tentative goes, so its valid
    /// lifetime cannot be set any more.
    pub open spec fn slaac_ok(self, p: PrefixInformation) -> bool {
        p.preferred_lifetime == 0 ==> match find_slaac(self.addrs, prefix_subnet(p)) {
            Some(i) => self.addrs[i].state is Tentative ==> new_valid_until(
                self.now,
                self.addrs[i].config->valid_until->0,
                Duration::of_secs(p.valid_lifetime as u64),
            ) is None,
            None => true,
        }
    }

    /// If a prefix is to give the device a new address, that is a unicast address.
    pub open spec fn formable(self, p: PrefixInformation) -> bool {
        let subnet = prefix_subnet(p);
        subnet.wf() && 0 < p.valid_lifetime && p.preferred_lifetime <= p.valid_lifetime
            && p.prefix_length == REQUIRED_PREFIX_BITS && find_slaac(self.addrs, subnet) is None
            ==> global_address(subnet, self.iid).addr.valid_unicast()
    }

    /// A unicast prefix gives a unicast address.
    pub proof fn lemma_formable(self, p: PrefixInformation)
        requires
            self.iid.len() == 8,
            p.prefix.unicast(),
        ensures
            self.formable(p),
    {
        if prefix_subnet(p).wf() && p.prefix_length == REQUIRED_PREFIX_BITS {
            lemma_global_address(prefix_subnet(p), self.iid);
        }
    }

    /// An option that an advertisement may carry.
    pub open spec fn option_ok(self, option: NdpOption) -> bool {
        match option {
            NdpOption::SourceLinkLayerAddress(a) => a@.len() >= H::length(),
            NdpOption::PrefixInformation(p) => p.autonomous_address_configuration_flag
                && prefix_subnet(p).wf() && p.prefix.unicast() && !p.prefix.link_local()
                ==> self.slaac_ok(p),
            _ => true,
        }
    }

    /// Options that an advertisement may carry.
    pub open spec fn options_ok(self, src_ip: Ipv6Addr, options: Seq<NdpOption>) -> bool
        decreases options.len(),
    {
        options.len() > 0 ==> self.options_ok(src_ip, options.drop_last()) && self.heard_options(
            src_ip,
            options.drop_last(),
        ).option_ok(options.last())
    }

    /// The options of an advertisement are taken up to the one at `count`, which cannot be processed.
    pub open spec fn stops_at(self, src_ip: Ipv6Addr, options: Seq<NdpOption>, count: int) -> bool {
        &&& 0 <= count < options.len()
        &&& self.options_ok(src_ip, options.take(count))
        &&& !self.heard_options(src_ip, options.take(count)).option_ok(options[count])
    }

    /// A solicitation for this address is answered.
    pub open spec fn answers_for(self, target: Ipv6Addr) -> bool {
        &&& target.unicast()
        &&& find_addr(self.addrs, target) matches Some(i) && self.addrs[i].state !is Tentative
    }

    /// A message that can be processed. Only the options of an advertisement that is heeded matter,
    /// and only the source of a solicitation that is answered does.
    pub open spec fn receivable(self, src_ip: Ipv6SourceAddr, packet: NdpPacket) -> bool {
        &&& packet matches NdpPacket::NeighborSolicitation { target_address, options } ==> (src_ip
            matches Ipv6SourceAddr::Unicast(src) ==> (self.answers_for(target_address)
            ==> src.valid_unicast()))
        &&& packet matches NdpPacket::RouterAdvertisement { message, options } ==> (src_ip
            matches Ipv6SourceAddr::Unicast(src) ==> (src.link_local() && !self.is_router_device()
            ==> self.count(Counter::RxRouterAdvertisement).heard_router(
            src,
            message.router_lifetime,
        ).options_ok(src, options@)))
    }

    /// An advertisement was taken up to the option at `count`, which cannot be processed.
    pub open spec fn stopped_ra(
        self,
        src_ip: Ipv6Addr,
        ra: RouterAdvertisement,
        options: Seq<NdpOption>,
        draw: Duration,
        count: int,
    ) -> Option<Self> {
        let heard = self.heard_advertiser(src_ip, ra, draw);
        if heard.stops_at(src_ip, options, count) {
            Some(heard.heard_options(src_ip, options.take(count)))
        } else {
            None
        }
    }

    /// What is left of a message that cannot be processed: an advertisement is taken up to the first
    /// option that cannot be, and a solicitation not at all.
    pub open spec fn stopped(
        self,
        next: Self,
        src_ip: Ipv6SourceAddr,
        packet: NdpPacket,
        draw: Duration,
    ) -> bool {
        match packet {
            NdpPacket::RouterAdvertisement { message, options } => exists|count: int|
                Some(next) == #[trigger] self.stopped_ra(
                    src_ip->Unicast_0,
                    message,
                    options@,
                    draw,
                    count,
                ),
            _ => next == self,
        }
    }

    /// A timer that can fire.
    pub open spec fn fireable(self, inner: InnerNdpTimerId) -> bool {
        &&& self.has_timer(inner)
        &&& match inner {
            InnerNdpTimerId::LinkAddressResolution { neighbor_addr } => {
                &&& self.neighbors.dom().contains(neighbor_addr)
                &&& self.neighbors[neighbor_addr].state is Incomplete
            },
            InnerNdpTimerId::RouterSolicitationTransmit => !self.is_router_device(),
            InnerNdpTimerId::RouterInvalidation { ip } => self.default_routers.contains(ip),
            _ => true,
        }
    }
}

// -- Addresses --

/// An address that is there once is found at its place.
pub proof fn lemma_find_addr(addrs: Seq<Ipv6AddressEntry>, addr: Ipv6Addr)
    requires
        distinct(addrs),
    ensures
        match find_addr(addrs, addr) {
            Some(i) => 0 <= i < addrs.len() && addrs[i].addr_sub.addr == addr,
            None => forall|j: int|
                0 <= j < addrs.len() ==> (#[trigger] addrs[j]).addr_sub.addr != addr,
        },
        forall|j: int|
            0 <= j < addrs.len() && (#[trigger] addrs[j]).addr_sub.addr == addr ==> find_addr(
                addrs,
                addr,
            ) == Some(j),
{
    let p = |e: Ipv6AddressEntry| e.addr_sub.addr == addr;
    lemma_first_where(addrs, p);
    assert forall|j: int| 0 <= j < addrs.len() && (
    #[trigger] addrs[j]).addr_sub.addr == addr implies find_addr(addrs, addr) == Some(j) by {
        match first_where(addrs, p) {
            Some(i) => {
                assert(p(addrs[i]));
                if i < j {
                    assert(addrs[i].addr_sub.addr != addrs[j].addr_sub.addr);
                } else if j < i {
                    assert(!p(addrs[j]));
                }
            },
            None => {
                assert(!p(addrs[j]));
            },
        }
    }
    match first_where(addrs, p) {
        Some(i) => {},
        None => {
            assert forall|j: int| 0 <= j < addrs.len() implies (
            #[trigger] addrs[j]).addr_sub.addr != addr by {
                assert(!p(addrs[j]));
            }
        },
    }
}

/// The autoconfigured address of a subnet is what it is said to be.
pub proof fn lemma_find_slaac(addrs: Seq<Ipv6AddressEntry>, subnet: Subnet)
    ensures
        match find_slaac(addrs, subnet) {
            Some(i) => {
                &&& 0 <= i < addrs.len()
                &&& addrs[i].addr_sub.addr.global()
                &&& addrs[i].addr_sub.subnet == subnet
                &&& addrs[i].config is Slaac
            },
            None => forall|j: int|
                0 <= j < addrs.len() ==> !((#[trigger] addrs[j]).addr_sub.addr.global()
                    && addrs[j].addr_sub.subnet == subnet && addrs[j].config is Slaac),
        },
{
    let p = |e: Ipv6AddressEntry|
        e.addr_sub.addr.global() && e.addr_sub.subnet == subnet && e.config is Slaac;
    lemma_first_where(addrs, p);
    match first_where(addrs, p) {
        Some(i) => {
            assert(p(addrs[i]));
        },
        None => {
            assert forall|j: int| 0 <= j < addrs.len() implies !((
            #[trigger] addrs[j]).addr_sub.addr.global() && addrs[j].addr_sub.subnet == subnet
                && addrs[j].config is Slaac) by {
                assert(!p(addrs[j]));
            }
        },
    }
}

/// The device sends from addresses of its own.
pub proof fn lemma_source_addr<H: LinkAddress>(v: NdpView<H>)
    requires
        v.addrs_inv(),
    ensures
        source_addr(v.addrs) is Some ==> source_addr(v.addrs)->0.valid_unicast(),
{
    let g = |e: Ipv6AddressEntry| usable_global(e);
    let l = |e: Ipv6AddressEntry| usable_link_local(e);
    lemma_first_where(v.addrs, g);
    lemma_first_where(v.addrs, l);
    match first_where(v.addrs, g) {
        Some(i) => {
            assert(v.addrs[i].addr_sub.addr.valid_unicast());
        },
        None => match first_where(v.addrs, l) {
            Some(i) => {
                assert(v.addrs[i].addr_sub.addr.valid_unicast());
            },
            None => {},
        },
    }
}

impl<H: LinkAddress> NdpView<H> {
    // -- Steps that change little --

    /// Nothing that the invariant speaks of differs, but for the actions.
    pub open spec fn same_but_actions(self, other: Self) -> bool {
        self == (NdpView { actions: self.actions, ..other })
    }

    pub proof fn lemma_actions(self, other: Self)
        requires
            other.inv(),
            self.same_but_actions(other),
        ensures
            self.inv(),
    {
        assert(forall|i: InnerNdpTimerId| #[trigger] self.has_timer(i) == other.has_timer(i));
        assert(forall|a: Ipv6Addr| #[trigger] self.has_slaac(a) == other.has_slaac(a));
        assert(forall|a: Ipv6Addr| #[trigger] self.has_preferred(a) == other.has_preferred(a));
    }

    /// A look-up keeps the invariant.
    pub proof fn lookup_keeps_inv(self, addr: Ipv6Addr)
        requires
            self.inv(),
        ensures
            self.lookup(addr).inv(),
    {
        if !self.neighbors.dom().contains(addr) {
            let inner = InnerNdpTimerId::LinkAddressResolution { neighbor_addr: addr };
            let next = self.lookup(addr);
            self.lemma_other_timers(next, inner);
            assert(next.neighbors_inv()) by {
                assert forall|a: Ipv6Addr| #[trigger] next.neighbors.dom().contains(a) implies {
                    &&& next.neighbors[a].wf()
                    &&& next.neighbors[a].state is Incomplete ==> {
                        &&& 1 <= next.neighbors[a].state->transmit_counter <= MAX_MULTICAST_SOLICIT
                        &&& next.has_timer(
                            InnerNdpTimerId::LinkAddressResolution { neighbor_addr: a },
                        )
                    }
                } by {
                    if a != addr {
                        assert(self.neighbors.dom().contains(a));
                    }
                }
            }
        }
    }

    /// Setting or cancelling one timer does not touch the others.
    proof fn lemma_other_timers(self, next: Self, inner: InnerNdpTimerId)
        requires
            next.device_id == self.device_id,
            next.timers.remove(self.timer(inner)) =~= self.timers.remove(self.timer(inner)),
        ensures
            forall|i: InnerNdpTimerId|
                i != inner ==> #[trigger] next.has_timer(i) == self.has_timer(i) && (
                self.has_timer(i) ==> next.timers[self.timer(i)] == self.timers[self.timer(i)]),
    {
        let id = self.timer(inner);
        assert forall|i: InnerNdpTimerId| i != inner implies #[trigger] next.has_timer(i)
            == self.has_timer(i) && (self.has_timer(i) ==> next.timers[self.timer(i)]
            == self.timers[self.timer(i)]) by {
            let other = self.timer(i);
            assert(other != id);
            assert(next.timers.remove(id).dom().contains(other) == self.timers.remove(
                id,
            ).dom().contains(other));
            assert(self.timers.remove(id)[other] == next.timers.remove(id)[other]);
        }
    }
}

impl<H: LinkAddress> NdpView<H> {
    /// The two differ at most in their neighbors, their default routers, their prefixes, their
    /// times and what is left to solicit; no timer of an address differs.
    spec fn same_addrs(self, other: Self) -> bool {
        &&& self.device_id == other.device_id
        &&& self.iid == other.iid
        &&& self.initial_state == other.initial_state
        &&& self.addrs == other.addrs
        &&& forall|a: Ipv6Addr| #[trigger]
            self.has_timer(InnerNdpTimerId::InvalidateSlaacAddress { addr: a }) == other.has_timer(
                InnerNdpTimerId::InvalidateSlaacAddress { addr: a },
            )
        &&& forall|a: Ipv6Addr| #[trigger]
            self.has_timer(InnerNdpTimerId::DeprecateSlaacAddress { addr: a }) == other.has_timer(
                InnerNdpTimerId::DeprecateSlaacAddress { addr: a },
            )
        &&& forall|a: Ipv6Addr| #[trigger]
            other.has_timer(InnerNdpTimerId::InvalidateSlaacAddress { addr: a })
                ==> self.timers[other.timer(InnerNdpTimerId::InvalidateSlaacAddress { addr: a })]
                == other.timers[other.timer(InnerNdpTimerId::InvalidateSlaacAddress { addr: a })]
        &&& forall|a: Ipv6Addr| #[trigger]
            other.has_timer(InnerNdpTimerId::DeprecateSlaacAddress { addr: a })
                ==> self.timers[other.timer(InnerNdpTimerId::DeprecateSlaacAddress { addr: a })]
                == other.timers[other.timer(InnerNdpTimerId::DeprecateSlaacAddress { addr: a })]
    }

    proof fn lemma_same_addrs(self, other: Self)
        requires
            other.inv(),
            self.same_addrs(other),
        ensures
            self.addrs_inv(),
            self.slaac_inv(),
            self.slaac_timers_inv(),
    {
        assert(forall|a: Ipv6Addr| #[trigger] self.has_slaac(a) == other.has_slaac(a));
        assert(forall|a: Ipv6Addr| #[trigger] self.has_preferred(a) == other.has_preferred(a));
        assert forall|i: int|
            0 <= i < self.addrs.len() && (#[trigger] self.addrs[i]).config is Slaac implies {
            let inner = InnerNdpTimerId::InvalidateSlaacAddress {
                addr: self.addrs[i].addr_sub.addr,
            };
            &&& self.addrs[i].config->valid_until is Some
            &&& self.has_timer(inner)
            &&& self.timers[self.timer(inner)] == self.addrs[i].config->valid_until->0
        } by {
            let a = other.addrs[i].addr_sub.addr;
            assert(other.has_timer(InnerNdpTimerId::InvalidateSlaacAddress { addr: a }));
        }
        assert forall|a: Ipv6Addr| #[trigger]
            self.has_timer(InnerNdpTimerId::DeprecateSlaacAddress { addr: a }) implies {
            &&& self.has_preferred(a)
            &&& self.timers[self.timer(
                InnerNdpTimerId::DeprecateSlaacAddress { addr: a },
            )].nanos <= self.timers[self.timer(
                InnerNdpTimerId::InvalidateSlaacAddress { addr: a },
            )].nanos
        } by {
            assert(other.has_timer(InnerNdpTimerId::DeprecateSlaacAddress { addr: a }));
            assert(other.has_preferred(a));
            let i = choose|i: int|
                0 <= i < other.addrs.len() && (#[trigger] other.addrs[i]).addr_sub.addr == a
                    && other.addrs[i].config is Slaac && other.addrs[i].state !is Deprecated;
            assert(other.has_timer(InnerNdpTimerId::InvalidateSlaacAddress { addr: a }));
        }
    }

    /// One timer, which is not one of an address, is set or cancelled.
    proof fn lemma_one_timer(self, next: Self, inner: InnerNdpTimerId)
        requires
            self.inv(),
            next.device_id == self.device_id,
            next.iid == self.iid,
            next.initial_state == self.initial_state,
            next.addrs == self.addrs,
            inner !is InvalidateSlaacAddress,
            inner !is DeprecateSlaacAddress,
            next.timers.remove(self.timer(inner)) =~= self.timers.remove(self.timer(inner)),
        ensures
            forall|i: InnerNdpTimerId|
                i != inner ==> #[trigger] next.has_timer(i) == self.has_timer(i),
            next.addrs_inv(),
            next.slaac_inv(),
            next.slaac_timers_inv(),
    {
        self.lemma_other_timers(next, inner);
        assert(next.same_addrs(self)) by {
            assert forall|i: InnerNdpTimerId|
                i != inner && #[trigger] self.has_timer(i) implies next.has_timer(i)
                && next.timers[self.timer(i)] == self.timers[self.timer(i)] by {
                assert(next.has_timer(i) == self.has_timer(i));
            }
        }
        next.lemma_same_addrs(self);
    }

    /// A neighbor that does not answer in time keeps the invariant.
    proof fn lemma_resolution_timeout(self, addr: Ipv6Addr)
        requires
            self.inv(),
            self.neighbors.dom().contains(addr),
            self.neighbors[addr].state is Incomplete,
        ensures
            self.cancel(
                InnerNdpTimerId::LinkAddressResolution { neighbor_addr: addr },
            ).resolution_timeout(addr).inv(),
    {
        let inner = InnerNdpTimerId::LinkAddressResolution { neighbor_addr: addr };
        let next = self.cancel(inner).resolution_timeout(addr);
        self.lemma_one_timer(next, inner);
        assert forall|a: Ipv6Addr| #[trigger] next.neighbors.dom().contains(a) implies {
            &&& next.neighbors[a].wf()
            &&& next.neighbors[a].state is Incomplete ==> {
                &&& 1 <= next.neighbors[a].state->transmit_counter <= MAX_MULTICAST_SOLICIT
                &&& next.has_timer(InnerNdpTimerId::LinkAddressResolution { neighbor_addr: a })
            }
        } by {
            assert(self.neighbors.dom().contains(a));
            assert(self.neighbors.dom().contains(addr));
        }
    }

    /// Starting to solicit routers keeps the invariant.
    pub proof fn start_soliciting_keeps_inv(self, delay: Duration)
        requires
            self.inv(),
        ensures
            self.start_soliciting(delay).inv(),
    {
        if self.solicitation_limit > 0 {
            let inner = InnerNdpTimerId::RouterSolicitationTransmit;
            self.lemma_one_timer(self.start_soliciting(delay), inner);
        }
    }

    /// Stopping to solicit routers keeps the invariant.
    pub proof fn stop_soliciting_keeps_inv(self)
        requires
            self.inv(),
        ensures
            self.stop_soliciting().inv(),
    {
        let inner = InnerNdpTimerId::RouterSolicitationTransmit;
        self.lemma_one_timer(self.stop_soliciting(), inner);
    }

    proof fn lemma_do_solicitation(self)
        requires
            self.inv(),
            self.has_timer(InnerNdpTimerId::RouterSolicitationTransmit),
        ensures
            self.cancel(InnerNdpTimerId::RouterSolicitationTransmit).do_solicitation().inv(),
    {
        let inner = InnerNdpTimerId::RouterSolicitationTransmit;
        let next = self.cancel(inner).do_solicitation();
        self.lemma_one_timer(next, inner);
    }

    /// Marking a neighbor as a router or as none keeps what holds of the neighbors.
    proof fn lemma_router_flag(self, next: Self, ip: Ipv6Addr, is_router: bool)
        requires
            self.neighbors_inv(),
            next.neighbors == with_router_flag(self.neighbors, ip, is_router),
            next.device_id == self.device_id,
            forall|a: Ipv6Addr| #[trigger]
                self.has_timer(InnerNdpTimerId::LinkAddressResolution { neighbor_addr: a })
                    ==> next.has_timer(
                    InnerNdpTimerId::LinkAddressResolution { neighbor_addr: a },
                ),
        ensures
            next.neighbors_inv(),
    {
        assert forall|a: Ipv6Addr| #[trigger] next.neighbors.dom().contains(a) implies {
            &&& next.neighbors[a].wf()
            &&& next.neighbors[a].state is Incomplete ==> {
                &&& 1 <= next.neighbors[a].state->transmit_counter <= MAX_MULTICAST_SOLICIT
                &&& next.has_timer(InnerNdpTimerId::LinkAddressResolution { neighbor_addr: a })
            }
        } by {
            assert(self.neighbors.dom().contains(a));
            if self.neighbors[a].state is Incomplete {
                assert(self.has_timer(
                    InnerNdpTimerId::LinkAddressResolution { neighbor_addr: a },
                ));
            }
        }
    }

    proof fn lemma_drop_router(self, ip: Ipv6Addr)
        requires
            self.inv(),
        ensures
            self.cancel(InnerNdpTimerId::RouterInvalidation { ip }).drop_router(ip).inv(),
            self.drop_router(ip).cancel(InnerNdpTimerId::RouterInvalidation { ip }).inv(),
    {
        let inner = InnerNdpTimerId::RouterInvalidation { ip };
        let next = self.cancel(inner).drop_router(ip);
        self.lemma_one_timer(next, inner);
        self.lemma_router_flag(next, ip, false);
        assert(next.routers_inv());
        assert(next =~= self.drop_router(ip).cancel(inner));
    }

    proof fn lemma_drop_prefix(self, subnet: Subnet)
        requires
            self.inv(),
        ensures
            self.cancel(InnerNdpTimerId::PrefixInvalidation { subnet }).drop_prefix(subnet).inv(),
    {
        let inner = InnerNdpTimerId::PrefixInvalidation { subnet };
        let next = self.cancel(inner).drop_prefix(subnet);
        self.lemma_one_timer(next, inner);
        assert forall|s: Subnet| #[trigger]
            next.has_timer(
                InnerNdpTimerId::PrefixInvalidation { subnet: s },
            ) implies next.on_link_prefixes.contains(s) by {
            if s == subnet {
                assert(!next.timers.dom().contains(self.timer(inner)));
            } else {
                assert(self.has_timer(InnerNdpTimerId::PrefixInvalidation { subnet: s }));
            }
        }
    }

    /// What an advertisement says keeps the invariant.
    pub proof fn lemma_heard_router(self, ip: Ipv6Addr, lifetime: u16)
        requires
            self.inv(),
            ip.link_local(),
        ensures
            self.heard_router(ip, lifetime).inv(),
    {
        let inner = InnerNdpTimerId::RouterInvalidation { ip };
        let next = self.heard_router(ip, lifetime);
        if lifetime > 0 {
            self.lemma_one_timer(next, inner);
        } else if self.default_routers.contains(ip) {
            self.lemma_drop_router(ip);
        }
    }

    /// What an advertisement says keeps the invariant.
    pub proof fn lemma_heard_parameters(self, ra: RouterAdvertisement, draw: Duration)
        requires
            self.inv(),
            ra.reachable_time > 0 ==> draw.nanos < Duration::of_millis(
                ra.reachable_time as u64,
            ).nanos,
        ensures
            self.heard_parameters(ra, draw).inv(),
    {
        let next = self.heard_parameters(ra, draw);
        assert(forall|i: InnerNdpTimerId| #[trigger] next.has_timer(i) == self.has_timer(i));
        assert(next.same_addrs(self));
        next.lemma_same_addrs(self);
    }

    /// What an advertisement says keeps the invariant.
    pub proof fn lemma_heard_on_link(self, subnet: Subnet, valid_lifetime: u32)
        requires
            self.inv(),
        ensures
            self.heard_on_link(subnet, valid_lifetime).inv(),
    {
        let inner = InnerNdpTimerId::PrefixInvalidation { subnet };
        let next = self.heard_on_link(subnet, valid_lifetime);
        if valid_lifetime > 0 {
            self.lemma_one_timer(next, inner);
            assert forall|s: Subnet| #[trigger]
                next.has_timer(
                    InnerNdpTimerId::PrefixInvalidation { subnet: s },
                ) implies next.on_link_prefixes.contains(s) by {
                if s != subnet {
                    assert(self.has_timer(InnerNdpTimerId::PrefixInvalidation { subnet: s }));
                }
            }
        } else if self.on_link_prefixes.contains(subnet) {
            self.lemma_drop_prefix(subnet);
        }
    }

    /// The neighbors change, and nothing else.
    proof fn lemma_neighbors(self, neighbors: Map<Ipv6Addr, NeighborState<H>>)
        requires
            self.inv(),
            (NdpView { neighbors, ..self }).neighbors_inv(),
        ensures
            (NdpView { neighbors, ..self }).inv(),
    {
        let next = NdpView { neighbors, ..self };
        assert(forall|i: InnerNdpTimerId| #[trigger] next.has_timer(i) == self.has_timer(i));
        assert(next.same_addrs(self));
        next.lemma_same_addrs(self);
    }

    /// Learning a link address keeps the invariant.
    pub proof fn lemma_link_address(self, neighbor: Ipv6Addr, address: H, is_reachable: bool)
        requires
            self.inv(),
        ensures
            (NdpView {
                neighbors: with_link_address(self.neighbors, neighbor, address, is_reachable),
                ..self
            }).inv(),
    {
        let neighbors = with_link_address(self.neighbors, neighbor, address, is_reachable);
        let next = NdpView { neighbors, ..self };
        assert forall|a: Ipv6Addr| #[trigger] next.neighbors.dom().contains(a) implies {
            &&& next.neighbors[a].wf()
            &&& next.neighbors[a].state is Incomplete ==> {
                &&& 1 <= next.neighbors[a].state->transmit_counter <= MAX_MULTICAST_SOLICIT
                &&& next.has_timer(InnerNdpTimerId::LinkAddressResolution { neighbor_addr: a })
            }
        } by {
            if a != neighbor || self.neighbors.dom().contains(neighbor) {
                assert(self.neighbors.dom().contains(a));
                assert(self.has_timer(InnerNdpTimerId::LinkAddressResolution { neighbor_addr: a })
                    == next.has_timer(
                    InnerNdpTimerId::LinkAddressResolution { neighbor_addr: a },
                ));
            }
        }
        self.lemma_neighbors(neighbors);
    }

    proof fn lemma_neighbor_advertised(
        self,
        src: Ipv6Addr,
        m: NeighborAdvertisement,
        target: Option<H>,
    )
        requires
            self.inv(),
        ensures
            self.neighbor_advertised(src, m, target).inv(),
    {
        let next = self.neighbor_advertised(src, m, target);
        let inner = InnerNdpTimerId::LinkAddressResolution { neighbor_addr: src };
        if self.neighbors.dom().contains(src) {
            if !(self.neighbors[src].state is Incomplete && target is None) {
                self.lemma_one_timer(next, inner);
                assert forall|a: Ipv6Addr| #[trigger] next.neighbors.dom().contains(a) implies {
                    &&& next.neighbors[a].wf()
                    &&& next.neighbors[a].state is Incomplete ==> {
                        &&& 1 <= next.neighbors[a].state->transmit_counter <= MAX_MULTICAST_SOLICIT
                        &&& next.has_timer(
                            InnerNdpTimerId::LinkAddressResolution { neighbor_addr: a },
                        )
                    }
                } by {
                    assert(self.neighbors.dom().contains(a));
                    if a != src {
                        assert(next.neighbors[a] == self.neighbors[a]);
                    }
                }
                assert forall|r: Ipv6Addr| #[trigger]
                    next.default_routers.contains(r) implies r.link_local() && next.has_timer(
                    InnerNdpTimerId::RouterInvalidation { ip: r },
                ) by {
                    assert(self.default_routers.contains(r));
                }
            }
        }
    }
}

// -- Address autoconfiguration --

/// A prefix and an identifier that fills the rest form an address in the prefix's subnet.
pub proof fn lemma_address_in_subnet(prefix: Subnet, iid: Seq<u8>)
    requires
        prefix.wf(),
        8 * iid.len() == 128 - prefix.prefix,
    ensures
        prefix.network.bits + be_value(iid) <= u128::MAX,
        global_address(prefix, iid).addr.masked(prefix.prefix) == prefix.network,
{
    let n = prefix.network.bits as int;
    let x = be_value(iid) as int;
    let m = pow2(8 * iid.len()) as int;
    let top = pow2(prefix.prefix as nat) as int;
    lemma_be_value_bound(iid);
    lemma_pow2_128();
    lemma_pow2_adds(8 * iid.len(), prefix.prefix as nat);
    assert(8 * iid.len() + prefix.prefix == 128);
    lemma_pow2_grows(0, 8 * iid.len());
    assert(n % m == 0) by {
        assert(0 <= n % m <= n) by (nonlinear_arith)
            requires
                m > 0,
                n >= 0,
        ;
        assert(pow2((128 - prefix.prefix) as nat) == m);
    }
    let k = n / m;
    lemma_fundamental_div_mod(n, m);
    assert(n == m * k);
    assert(k < top) by (nonlinear_arith)
        requires
            n == m * k,
            n < m * top,
            m > 0,
    ;
    assert(m * k + m <= m * top) by (nonlinear_arith)
        requires
            k < top,
            m > 0,
    ;
    lemma_mod_multiples_vanish(k, x, m);
    lemma_small_mod(x as nat, m as nat);
}

/// A prefix of the right length and an interface identifier form a proper address.
pub proof fn lemma_global_address(prefix: Subnet, iid: Seq<u8>)
    requires
        prefix.wf(),
        prefix.prefix == REQUIRED_PREFIX_BITS,
        prefix.network.unicast(),
        iid.len() == 8,
    ensures
        global_address(prefix, iid).wf(),
        global_address(prefix, iid).addr.valid_unicast(),
{
    let n = prefix.network.bits as int;
    let x = be_value(iid) as int;
    let unit: int = 0x1_0000_0000_0000_0000;
    lemma_be_value_bound(iid);
    assert(pow2(64) == 0x1_0000_0000_0000_0000) by {
        reveal_with_fuel(pow2, 65);
    }
    lemma_address_in_subnet(prefix, iid);
    assert(n % unit == 0);
    let top: int = 0x1_00_0000_0000_0000_0000_0000_0000_0000;
    assert((n + x) / top == n / top) by {
        assert(top % unit == 0);
    }
}

impl<H: LinkAddress> NdpView<H> {
    /// The two differ at most in the addresses, in the timers of one address, and in the actions.
    spec fn same_but_addr(self, other: Self, a: Ipv6Addr) -> bool {
        let d = other.timer(InnerNdpTimerId::DeprecateSlaacAddress { addr: a });
        let i = other.timer(InnerNdpTimerId::InvalidateSlaacAddress { addr: a });
        &&& self == (NdpView {
            addrs: self.addrs,
            timers: self.timers,
            actions: self.actions,
            ..other
        })
        &&& self.timers.remove(d).remove(i) =~= other.timers.remove(d).remove(i)
    }

    proof fn lemma_same_but_addr(self, other: Self, a: Ipv6Addr)
        requires
            other.inv(),
            self.same_but_addr(other, a),
            self.addrs_inv(),
            self.slaac_inv(),
            self.slaac_timers_inv(),
        ensures
            self.inv(),
    {
        self.lemma_timers_but_addr(other, a);
        assert(self.neighbors_inv());
        assert(self.routers_inv());
        assert(self.prefixes_inv());
        assert(self.solicitations_inv());
    }

    proof fn lemma_timers_but_addr(self, other: Self, a: Ipv6Addr)
        requires
            self.same_but_addr(other, a),
        ensures
            forall|k: InnerNdpTimerId|
                k != (InnerNdpTimerId::DeprecateSlaacAddress { addr: a }) && k != (
                InnerNdpTimerId::InvalidateSlaacAddress { addr: a }) ==> #[trigger] self.has_timer(
                    k,
                ) == other.has_timer(k) && (other.has_timer(k) ==> self.timers[other.timer(k)]
                    == other.timers[other.timer(k)]),
    {
        let d = other.timer(InnerNdpTimerId::DeprecateSlaacAddress { addr: a });
        let i = other.timer(InnerNdpTimerId::InvalidateSlaacAddress { addr: a });
        assert forall|k: InnerNdpTimerId|
            k != (InnerNdpTimerId::DeprecateSlaacAddress { addr: a }) && k != (
            InnerNdpTimerId::InvalidateSlaacAddress {
                addr: a,
            }) implies #[trigger] self.has_timer(k) == other.has_timer(k) && (other.has_timer(k)
            ==> self.timers[other.timer(k)] == other.timers[other.timer(k)]) by {
            let id = other.timer(k);
            let mine = self.timers.remove(d).remove(i);
            let theirs = other.timers.remove(d).remove(i);
            assert(id != d && id != i);
            assert(mine.dom().contains(id) == theirs.dom().contains(id));
            assert(mine[id] == theirs[id]);
        }
    }

    /// The entry of an autoconfigured address is replaced.
    proof fn lemma_slaac_replaced(self, next: Self, i: int, entry: Ipv6AddressEntry)
        requires
            self.inv(),
            0 <= i < self.addrs.len(),
            self.addrs[i].config is Slaac,
            entry.addr_sub == self.addrs[i].addr_sub,
            entry.config is Slaac,
            entry.config->valid_until is Some,
            next.addrs == self.addrs.update(i, entry),
            next.same_but_addr(self, entry.addr_sub.addr),
            next.has_timer(
                InnerNdpTimerId::InvalidateSlaacAddress { addr: entry.addr_sub.addr },
            ),
            next.timers[next.timer(
                InnerNdpTimerId::InvalidateSlaacAddress { addr: entry.addr_sub.addr },
            )] == entry.config->valid_until->0,
            next.has_timer(InnerNdpTimerId::DeprecateSlaacAddress { addr: entry.addr_sub.addr })
                ==> entry.state !is Deprecated && next.timers[next.timer(
                InnerNdpTimerId::DeprecateSlaacAddress { addr: entry.addr_sub.addr },
            )].nanos <= entry.config->valid_until->0.nanos,
        ensures
            next.inv(),
    {
        let addr = entry.addr_sub.addr;
        next.lemma_timers_but_addr(self, addr);
        assert(next.addrs_inv()) by {
            assert forall|j: int, k: int|
                #![trigger next.addrs[j], next.addrs[k]]
                0 <= j < k < next.addrs.len() implies next.addrs[j].addr_sub.addr
                != next.addrs[k].addr_sub.addr by {
                assert(self.addrs[j].addr_sub.addr != self.addrs[k].addr_sub.addr);
            }
            assert forall|j: int| 0 <= j < next.addrs.len() implies (
            #[trigger] next.addrs[j]).addr_sub.wf() && next.addrs[j].addr_sub.addr.valid_unicast() by {
                assert(self.addrs[j].addr_sub.wf());
            }
        }
        assert forall|j: int|
            0 <= j < next.addrs.len() && (#[trigger] next.addrs[j]).config is Slaac implies {
            let inner = InnerNdpTimerId::InvalidateSlaacAddress {
                addr: next.addrs[j].addr_sub.addr,
            };
            &&& next.addrs[j].config->valid_until is Some
            &&& next.has_timer(inner)
            &&& next.timers[next.timer(inner)] == next.addrs[j].config->valid_until->0
        } by {
            if j != i {
                assert(self.addrs[j].config is Slaac);
                let a = self.addrs[j].addr_sub.addr;
                if j < i {
                    assert(self.addrs[j].addr_sub.addr != self.addrs[i].addr_sub.addr);
                } else {
                    assert(self.addrs[i].addr_sub.addr != self.addrs[j].addr_sub.addr);
                }
                assert(next.has_timer(InnerNdpTimerId::InvalidateSlaacAddress { addr: a })
                    == self.has_timer(InnerNdpTimerId::InvalidateSlaacAddress { addr: a }));
            }
        }
        assert(next.addrs[i] == entry);
        assert forall|a: Ipv6Addr| #[trigger]
            next.has_timer(InnerNdpTimerId::InvalidateSlaacAddress { addr: a }) implies next.has_slaac(
            a,
        ) by {
            if a == addr {
                assert(next.addrs[i].addr_sub.addr == a);
            } else {
                assert(self.has_slaac(a));
                let j = choose|j: int|
                    0 <= j < self.addrs.len() && (#[trigger] self.addrs[j]).addr_sub.addr == a
                        && self.addrs[j].config is Slaac;
                assert(next.addrs[j] == self.addrs[j]);
            }
        }
        assert forall|a: Ipv6Addr| #[trigger]
            next.has_timer(InnerNdpTimerId::DeprecateSlaacAddress { addr: a }) implies {
            &&& next.has_preferred(a)
            &&& next.timers[next.timer(
                InnerNdpTimerId::DeprecateSlaacAddress { addr: a },
            )].nanos <= next.timers[next.timer(
                InnerNdpTimerId::InvalidateSlaacAddress { addr: a },
            )].nanos
        } by {
            if a == addr {
                assert(next.addrs[i].addr_sub.addr == a);
            } else {
                assert(self.has_timer(InnerNdpTimerId::DeprecateSlaacAddress { addr: a }));
                assert(self.has_preferred(a));
                let j = choose|j: int|
                    0 <= j < self.addrs.len() && (#[trigger] self.addrs[j]).addr_sub.addr == a
                        && self.addrs[j].config is Slaac && self.addrs[j].state !is Deprecated;
                assert(next.addrs[j] == self.addrs[j]);
                assert(next.has_timer(InnerNdpTimerId::InvalidateSlaacAddress { addr: a })
                    == self.has_timer(InnerNdpTimerId::InvalidateSlaacAddress { addr: a }));
            }
        }
        next.lemma_same_but_addr(self, addr);
    }

    /// The entry of an autoconfigured address is removed.
    proof fn lemma_slaac_removed(self, next: Self, i: int)
        requires
            self.inv(),
            0 <= i < self.addrs.len(),
            next.addrs == self.addrs.remove(i),
            next.same_but_addr(self, self.addrs[i].addr_sub.addr),
            !next.has_timer(
                InnerNdpTimerId::InvalidateSlaacAddress { addr: self.addrs[i].addr_sub.addr },
            ),
            !next.has_timer(
                InnerNdpTimerId::DeprecateSlaacAddress { addr: self.addrs[i].addr_sub.addr },
            ),
        ensures
            next.inv(),
    {
        let addr = self.addrs[i].addr_sub.addr;
        next.lemma_timers_but_addr(self, addr);
        assert forall|j: int| 0 <= j < next.addrs.len() implies #[trigger] next.addrs[j]
            == self.addrs[if j < i {
            j
        } else {
            j + 1
        }] by {}
        assert(next.addrs_inv()) by {
            assert forall|j: int, k: int|
                #![trigger next.addrs[j], next.addrs[k]]
                0 <= j < k < next.addrs.len() implies next.addrs[j].addr_sub.addr
                != next.addrs[k].addr_sub.addr by {
                let j0 = if j < i {
                    j
                } else {
                    j + 1
                };
                let k0 = if k < i {
                    k
                } else {
                    k + 1
                };
                assert(self.addrs[j0].addr_sub.addr != self.addrs[k0].addr_sub.addr);
            }
        }
        assert forall|j: int|
            0 <= j < next.addrs.len() && (#[trigger] next.addrs[j]).config is Slaac implies {
            let inner = InnerNdpTimerId::InvalidateSlaacAddress {
                addr: next.addrs[j].addr_sub.addr,
            };
            &&& next.addrs[j].config->valid_until is Some
            &&& next.has_timer(inner)
            &&& next.timers[next.timer(inner)] == next.addrs[j].config->valid_until->0
        } by {
            let j0 = if j < i {
                j
            } else {
                j + 1
            };
            let a = self.addrs[j0].addr_sub.addr;
            if j0 < i {
                assert(self.addrs[j0].addr_sub.addr != self.addrs[i].addr_sub.addr);
            } else {
                assert(self.addrs[i].addr_sub.addr != self.addrs[j0].addr_sub.addr);
            }
            assert(next.has_timer(InnerNdpTimerId::InvalidateSlaacAddress { addr: a })
                == self.has_timer(InnerNdpTimerId::InvalidateSlaacAddress { addr: a }));
        }
        assert forall|a: Ipv6Addr| #[trigger]
            next.has_timer(InnerNdpTimerId::InvalidateSlaacAddress { addr: a }) implies next.has_slaac(
            a,
        ) by {
            assert(self.has_slaac(a));
            let j = choose|j: int|
                0 <= j < self.addrs.len() && (#[trigger] self.addrs[j]).addr_sub.addr == a
                    && self.addrs[j].config is Slaac;
            let j1 = if j < i {
                j
            } else {
                j - 1
            };
            assert(next.addrs[j1] == self.addrs[j]);
        }
        assert forall|a: Ipv6Addr| #[trigger]
            next.has_timer(InnerNdpTimerId::DeprecateSlaacAddress { addr: a }) implies {
            &&& next.has_preferred(a)
            &&& next.timers[next.timer(
                InnerNdpTimerId::DeprecateSlaacAddress { addr: a },
            )].nanos <= next.timers[next.timer(
                InnerNdpTimerId::InvalidateSlaacAddress { addr: a },
            )].nanos
        } by {
            assert(self.has_timer(InnerNdpTimerId::DeprecateSlaacAddress { addr: a }));
            assert(self.has_preferred(a));
            let j = choose|j: int|
                0 <= j < self.addrs.len() && (#[trigger] self.addrs[j]).addr_sub.addr == a
                    && self.addrs[j].config is Slaac && self.addrs[j].state !is Deprecated;
            let j1 = if j < i {
                j
            } else {
                j - 1
            };
            assert(next.addrs[j1] == self.addrs[j]);
            assert(next.has_timer(InnerNdpTimerId::InvalidateSlaacAddress { addr: a })
                == self.has_timer(InnerNdpTimerId::InvalidateSlaacAddress { addr: a }));
        }
        next.lemma_same_but_addr(self, addr);
    }

    /// An autoconfigured address is added.
    proof fn lemma_slaac_added(self, next: Self, entry: Ipv6AddressEntry)
        requires
            self.inv(),
            find_addr(self.addrs, entry.addr_sub.addr) is None,
            entry.addr_sub.wf(),
            entry.addr_sub.addr.valid_unicast(),
            entry.config is Slaac,
            entry.config->valid_until is Some,
            next.addrs == self.addrs.push(entry),
            next.same_but_addr(self, entry.addr_sub.addr),
            next.has_timer(
                InnerNdpTimerId::InvalidateSlaacAddress { addr: entry.addr_sub.addr },
            ),
            next.timers[next.timer(
                InnerNdpTimerId::InvalidateSlaacAddress { addr: entry.addr_sub.addr },
            )] == entry.config->valid_until->0,
            next.has_timer(InnerNdpTimerId::DeprecateSlaacAddress { addr: entry.addr_sub.addr })
                ==> entry.state !is Deprecated && next.timers[next.timer(
                InnerNdpTimerId::DeprecateSlaacAddress { addr: entry.addr_sub.addr },
            )].nanos <= entry.config->valid_until->0.nanos,
        ensures
            next.inv(),
    {
        let addr = entry.addr_sub.addr;
        let last = self.addrs.len() as int;
        next.lemma_timers_but_addr(self, addr);
        lemma_find_addr(self.addrs, addr);
        assert(next.addrs[last] == entry);
        assert(next.addrs_inv()) by {
            assert forall|j: int, k: int|
                #![trigger next.addrs[j], next.addrs[k]]
                0 <= j < k < next.addrs.len() implies next.addrs[j].addr_sub.addr
                != next.addrs[k].addr_sub.addr by {
                assert(next.addrs[j] == self.addrs[j]);
                if k < last {
                    assert(next.addrs[k] == self.addrs[k]);
                }
            }
            assert forall|j: int| 0 <= j < next.addrs.len() implies (
            #[trigger] next.addrs[j]).addr_sub.wf() && next.addrs[j].addr_sub.addr.valid_unicast() by {
                if j < last {
                    assert(next.addrs[j] == self.addrs[j]);
                }
            }
        }
        assert forall|j: int|
            0 <= j < next.addrs.len() && (#[trigger] next.addrs[j]).config is Slaac implies {
            let inner = InnerNdpTimerId::InvalidateSlaacAddress {
                addr: next.addrs[j].addr_sub.addr,
            };
            &&& next.addrs[j].config->valid_until is Some
            &&& next.has_timer(inner)
            &&& next.timers[next.timer(inner)] == next.addrs[j].config->valid_until->0
        } by {
            if j < last {
                assert(next.addrs[j] == self.addrs[j]);
                let a = self.addrs[j].addr_sub.addr;
                assert(next.has_timer(InnerNdpTimerId::InvalidateSlaacAddress { addr: a })
                    == self.has_timer(InnerNdpTimerId::InvalidateSlaacAddress { addr: a }));
            }
        }
        assert forall|a: Ipv6Addr| #[trigger]
            next.has_timer(InnerNdpTimerId::InvalidateSlaacAddress { addr: a }) implies next.has_slaac(
            a,
        ) by {
            if a != addr {
                assert(self.has_slaac(a));
                let j = choose|j: int|
                    0 <= j < self.addrs.len() && (#[trigger] self.addrs[j]).addr_sub.addr == a
                        && self.addrs[j].config is Slaac;
                assert(next.addrs[j] == self.addrs[j]);
            }
        }
        assert forall|a: Ipv6Addr| #[trigger]
            next.has_timer(InnerNdpTimerId::DeprecateSlaacAddress { addr: a }) implies {
            &&& next.has_preferred(a)
            &&& next.timers[next.timer(
                InnerNdpTimerId::DeprecateSlaacAddress { addr: a },
            )].nanos <= next.timers[next.timer(
                InnerNdpTimerId::InvalidateSlaacAddress { addr: a },
            )].nanos
        } by {
            if a != addr {
                assert(self.has_timer(InnerNdpTimerId::DeprecateSlaacAddress { addr: a }));
                assert(self.has_preferred(a));
                let j = choose|j: int|
                    0 <= j < self.addrs.len() && (#[trigger] self.addrs[j]).addr_sub.addr == a
                        && self.addrs[j].config is Slaac && self.addrs[j].state !is Deprecated;
                assert(next.addrs[j] == self.addrs[j]);
                assert(next.has_timer(InnerNdpTimerId::InvalidateSlaacAddress { addr: a })
                    == self.has_timer(InnerNdpTimerId::InvalidateSlaacAddress { addr: a }));
            }
        }
        next.lemma_same_but_addr(self, addr);
    }

    /// An address that becomes invalid goes.
    proof fn lemma_invalidate_slaac(self, addr: Ipv6Addr)
        requires
            self.inv(),
            self.has_slaac(addr),
        ensures
            self.invalidate_slaac(addr).inv(),
            self.cancel(InnerNdpTimerId::InvalidateSlaacAddress { addr }).invalidate_slaac(
                addr,
            ).inv(),
            self.cancel(InnerNdpTimerId::DeprecateSlaacAddress { addr }).invalidate_slaac(
                addr,
            ).inv(),
    {
        lemma_find_addr(self.addrs, addr);
        let i = find_addr(self.addrs, addr)->0;
        let next = self.invalidate_slaac(addr);
        self.lemma_slaac_removed(next, i);
        let inv = InnerNdpTimerId::InvalidateSlaacAddress { addr };
        let dep = InnerNdpTimerId::DeprecateSlaacAddress { addr };
        assert(self.cancel(inv).invalidate_slaac(addr) =~= next);
        assert(self.cancel(dep).invalidate_slaac(addr) =~= next);
    }

    /// An address that is preferred no more keeps the invariant, once its timer is gone.
    proof fn lemma_deprecate_slaac(self, addr: Ipv6Addr)
        requires
            self.inv(),
            self.has_slaac(addr),
        ensures
            self.cancel(InnerNdpTimerId::DeprecateSlaacAddress { addr }).deprecate_slaac(
                addr,
            ).inv(),
            self.deprecate_slaac(addr).cancel(
                InnerNdpTimerId::DeprecateSlaacAddress { addr },
            ).inv(),
    {
        lemma_find_addr(self.addrs, addr);
        let i = find_addr(self.addrs, addr)->0;
        let dep = InnerNdpTimerId::DeprecateSlaacAddress { addr };
        let next = self.cancel(dep).deprecate_slaac(addr);
        let j = choose|j: int|
            0 <= j < self.addrs.len() && (#[trigger] self.addrs[j]).addr_sub.addr == addr
                && self.addrs[j].config is Slaac;
        assert(i == j);
        let inv_id = InnerNdpTimerId::InvalidateSlaacAddress { addr };
        if self.addrs[i].state is Tentative {
            self.lemma_invalidate_slaac(addr);
        } else {
            let entry = Ipv6AddressEntry { state: AddressState::Deprecated, ..self.addrs[i] };
            assert(self.has_timer(inv_id));
            self.lemma_slaac_replaced(next, i, entry);
        }
        assert(self.deprecate_slaac(addr).cancel(dep) =~= next);
    }

    /// The prefix of an advertisement, used for autoconfiguration, keeps the invariant.
    pub proof fn slaac_update_keeps_inv(self, p: PrefixInformation)
        requires
            self.inv(),
            self.clock_ok(),
            self.slaac_ok(p),
            self.formable(p),
        ensures
            self.slaac_update(p).inv(),
    {
        let subnet = prefix_subnet(p);
        let next = self.slaac_update(p);
        let pref = Duration::of_secs(p.preferred_lifetime as u64);
        let valid = Duration::of_secs(p.valid_lifetime as u64);
        if p.preferred_lifetime <= p.valid_lifetime && subnet.wf() {
            assert(pref.nanos <= valid.nanos <= Duration::of_secs(
                INFINITE_LIFETIME as u64,
            ).nanos);
            lemma_find_slaac(self.addrs, subnet);
            match find_slaac(self.addrs, subnet) {
                Some(i) => {
                    let entry = self.addrs[i];
                    let addr = entry.addr_sub.addr;
                    let dep = InnerNdpTimerId::DeprecateSlaacAddress { addr };
                    let inv_id = InnerNdpTimerId::InvalidateSlaacAddress { addr };
                    let old_until = entry.config->valid_until->0;
                    assert(self.has_timer(inv_id));
                    lemma_find_addr(self.addrs, addr);
                    assert(find_addr(self.addrs, addr) == Some(i));
                    let mid = self.update_preferred(i, p.preferred_lifetime);
                    if p.preferred_lifetime == 0 && entry.state is Tentative {
                        assert(self.has_slaac(addr));
                        self.lemma_deprecate_slaac(addr);
                        assert(next == mid);
                    } else {
                        // The entry stays, with a new state.
                        let state = mid.addrs[i].state;
                        let entry1 = Ipv6AddressEntry { state, ..entry };
                        assert(mid.addrs =~= self.addrs.update(i, entry1));
                        assert(distinct(mid.addrs)) by {
                            assert forall|j: int, k: int|
                                #![trigger mid.addrs[j], mid.addrs[k]]
                                0 <= j < k < mid.addrs.len() implies mid.addrs[j].addr_sub.addr
                                != mid.addrs[k].addr_sub.addr by {
                                assert(self.addrs[j].addr_sub.addr != self.addrs[k].addr_sub.addr);
                            }
                        }
                        lemma_find_addr(mid.addrs, addr);
                        assert(mid.addrs[i].addr_sub.addr == addr);
                        assert(find_addr(mid.addrs, addr) == Some(i));
                        let until = match new_valid_until(self.now, old_until, valid) {
                            Some(u) => u,
                            None => old_until,
                        };
                        let entry2 = Ipv6AddressEntry {
                            config: AddrConfig::Slaac { valid_until: Some(until) },
                            ..entry1
                        };
                        assert(next.addrs =~= self.addrs.update(i, entry2));
                        if p.preferred_lifetime == 0 && entry.state is Deprecated {
                            assert(!self.has_timer(dep)) by {
                                if self.has_timer(dep) {
                                    assert(self.has_preferred(addr));
                                    let j = choose|j: int|
                                        0 <= j < self.addrs.len() && (
                                        #[trigger] self.addrs[j]).addr_sub.addr == addr
                                            && self.addrs[j].config is Slaac
                                            && self.addrs[j].state !is Deprecated;
                                    assert(find_addr(self.addrs, addr) == Some(j));
                                }
                            }
                        }
                        self.lemma_slaac_replaced(next, i, entry2);
                    }
                },
                None => {
                    let address = global_address(subnet, self.iid);
                    let addr = address.addr;
                    if p.valid_lifetime != 0 && subnet.prefix == REQUIRED_PREFIX_BITS && find_addr(
                        self.addrs,
                        addr,
                    ) is None {
                        lemma_address_in_subnet(subnet, self.iid);
                        self.lemma_new_address(address, p.valid_lifetime, p.preferred_lifetime);
                    }
                },
            }
        }
    }

    proof fn lemma_new_address(self, address: AddrSubnet, valid: u32, preferred: u32)
        requires
            self.inv(),
            self.clock_ok(),
            address.wf(),
            address.addr.valid_unicast(),
            find_addr(self.addrs, address.addr) is None,
            preferred <= valid,
        ensures
            self.add_slaac(address, valid).first_preferred(address.addr, preferred).inv(),
    {
        let addr = address.addr;
        let dep = InnerNdpTimerId::DeprecateSlaacAddress { addr };
        let inv_id = InnerNdpTimerId::InvalidateSlaacAddress { addr };
        lemma_find_addr(self.addrs, addr);
        assert(!self.has_slaac(addr));
        assert(!self.has_preferred(addr));
        assert(!self.has_timer(dep));
        assert(!self.has_timer(inv_id));
        let until = self.now.after(Duration::of_secs(valid as u64));
        let entry = Ipv6AddressEntry {
            addr_sub: address,
            state: self.initial_state,
            config: AddrConfig::Slaac { valid_until: Some(until) },
        };
        let mid = self.add_slaac(address, valid);
        let next = mid.first_preferred(addr, preferred);
        assert(Duration::of_secs(preferred as u64).nanos <= Duration::of_secs(valid as u64).nanos);
        if preferred > 0 {
            self.lemma_slaac_added(next, entry);
        } else {
            self.lemma_slaac_added(mid, entry);
            assert(mid.addrs[self.addrs.len() as int] == entry);
            assert(mid.has_slaac(addr));
            mid.lemma_deprecate_slaac(addr);
        }
    }
}

// -- Messages and timers --

impl<H: LinkAddress> NdpView<H> {
    /// An option of an advertisement changes neither the clock nor the retransmission timer.
    proof fn lemma_option_frame(self, src_ip: Ipv6Addr, option: NdpOption)
        ensures
            self.heard_option(src_ip, option).now == self.now,
            self.heard_option(src_ip, option).retrans_timer == self.retrans_timer,
    {
    }

    /// An option of an advertisement keeps the invariant.
    pub proof fn option_keeps_inv(self, src_ip: Ipv6Addr, option: NdpOption)
        requires
            self.inv(),
            self.clock_ok(),
            self.option_ok(option),
        ensures
            self.heard_option(src_ip, option).inv(),
            self.heard_option(src_ip, option).clock_ok(),
    {
        self.lemma_option_frame(src_ip, option);
        match option {
            NdpOption::SourceLinkLayerAddress(a) => {
                self.lemma_link_address(src_ip, H::of_bytes(a@.take(H::length() as int)), false);
            },
            NdpOption::Mtu(mtu) => {
                self.heard_option(src_ip, option).lemma_actions(self);
            },
            NdpOption::PrefixInformation(p) => {
                let subnet = prefix_subnet(p);
                if subnet.wf() && subnet.network.unicast() && !p.prefix.link_local() {
                    self.lemma_heard_on_link(subnet, p.valid_lifetime);
                    let on_link = if p.on_link_flag {
                        self.heard_on_link(subnet, p.valid_lifetime)
                    } else {
                        self
                    };
                    assert(on_link.addrs == self.addrs && on_link.now == self.now);
                    if p.autonomous_address_configuration_flag {
                        on_link.lemma_formable(p);
                        on_link.slaac_update_keeps_inv(p);
                    }
                }
            },
            _ => {},
        }
    }

    /// If all options of an advertisement can be processed, so can the first ones.
    pub proof fn lemma_options_ok_prefix(
        self,
        src_ip: Ipv6Addr,
        options: Seq<NdpOption>,
        count: int,
    )
        requires
            self.options_ok(src_ip, options),
            0 <= count <= options.len(),
        ensures
            self.options_ok(src_ip, options.take(count)),
        decreases options.len(),
    {
        if count == options.len() {
            assert(options.take(count) =~= options);
        } else {
            self.lemma_options_ok_prefix(src_ip, options.drop_last(), count);
            assert(options.drop_last().take(count) =~= options.take(count));
        }
    }

    /// If an option of an advertisement cannot be processed, not all of them can.
    pub proof fn lemma_stops_at(self, src_ip: Ipv6Addr, options: Seq<NdpOption>, count: int)
        requires
            self.stops_at(src_ip, options, count),
        ensures
            !self.options_ok(src_ip, options),
    {
        let next = options.take(count + 1);
        if self.options_ok(src_ip, options) {
            self.lemma_options_ok_prefix(src_ip, options, count + 1);
            assert(next.drop_last() =~= options.take(count));
            assert(next.last() == options[count]);
        }
    }

    /// The options of an advertisement keep the invariant.
    pub proof fn options_keep_inv(self, src_ip: Ipv6Addr, options: Seq<NdpOption>)
        requires
            self.inv(),
            self.clock_ok(),
            self.options_ok(src_ip, options),
        ensures
            self.heard_options(src_ip, options).inv(),
            self.heard_options(src_ip, options).clock_ok(),
        decreases options.len(),
    {
        if options.len() > 0 {
            self.options_keep_inv(src_ip, options.drop_last());
            self.heard_options(src_ip, options.drop_last()).option_keeps_inv(
                src_ip,
                options.last(),
            );
        }
    }

    proof fn lemma_parameters_deprecate(self, ra: RouterAdvertisement, draw: Duration, addr: Ipv6Addr)
        ensures
            self.heard_parameters(ra, draw).deprecate_slaac(addr) == self.deprecate_slaac(addr).heard_parameters(ra, draw),
    {
    }

    proof fn lemma_parameters_preferred(
        self,
        ra: RouterAdvertisement,
        draw: Duration,
        i: int,
        preferred: u32,
    )
        ensures
            self.heard_parameters(ra, draw).update_preferred(i, preferred)
                == self.update_preferred(i, preferred).heard_parameters(ra, draw),
    {
        self.lemma_parameters_deprecate(ra, draw, self.addrs[i].addr_sub.addr);
    }

    proof fn lemma_parameters_valid(
        self,
        ra: RouterAdvertisement,
        draw: Duration,
        addr: Ipv6Addr,
        old_until: Instant,
        valid: u32,
    )
        ensures
            self.heard_parameters(ra, draw).update_valid(addr, old_until, valid)
                == self.update_valid(addr, old_until, valid).heard_parameters(ra, draw),
    {
    }

    proof fn lemma_parameters_new(
        self,
        ra: RouterAdvertisement,
        draw: Duration,
        address: AddrSubnet,
        valid: u32,
        preferred: u32,
    )
        ensures
            self.heard_parameters(ra, draw).add_slaac(address, valid).first_preferred(
                address.addr,
                preferred,
            ) == self.add_slaac(address, valid).first_preferred(
                address.addr,
                preferred,
            ).heard_parameters(ra, draw),
    {
        let added = self.add_slaac(address, valid);
        assert(self.heard_parameters(ra, draw).add_slaac(address, valid)
            == added.heard_parameters(ra, draw));
        added.lemma_parameters_deprecate(ra, draw, address.addr);
    }

    proof fn lemma_parameters_slaac(
        self,
        ra: RouterAdvertisement,
        draw: Duration,
        p: PrefixInformation,
    )
        ensures
            self.heard_parameters(ra, draw).slaac_update(p) == self.slaac_update(
                p,
            ).heard_parameters(ra, draw),
    {
        let subnet = prefix_subnet(p);
        match find_slaac(self.addrs, subnet) {
            Some(i) => {
                let entry = self.addrs[i];
                self.lemma_parameters_preferred(ra, draw, i, p.preferred_lifetime);
                self.update_preferred(i, p.preferred_lifetime).lemma_parameters_valid(
                    ra,
                    draw,
                    entry.addr_sub.addr,
                    entry.config->valid_until->0,
                    p.valid_lifetime,
                );
            },
            None => {
                self.lemma_parameters_new(
                    ra,
                    draw,
                    global_address(subnet, self.iid),
                    p.valid_lifetime,
                    p.preferred_lifetime,
                );
            },
        }
    }

    proof fn lemma_parameters_on_link(
        self,
        ra: RouterAdvertisement,
        draw: Duration,
        subnet: Subnet,
        valid: u32,
    )
        ensures
            self.heard_parameters(ra, draw).heard_on_link(subnet, valid) == self.heard_on_link(
                subnet,
                valid,
            ).heard_parameters(ra, draw),
    {
    }

    /// The parameters of an advertisement and one of its options do not touch each other.
    proof fn lemma_parameters_and_option(
        self,
        ra: RouterAdvertisement,
        draw: Duration,
        src_ip: Ipv6Addr,
        option: NdpOption,
    )
        ensures
            self.heard_parameters(ra, draw).heard_option(src_ip, option) == self.heard_option(
                src_ip,
                option,
            ).heard_parameters(ra, draw),
            self.heard_parameters(ra, draw).option_ok(option) == self.option_ok(option),
    {
        if let NdpOption::PrefixInformation(p) = option {
            let subnet = prefix_subnet(p);
            self.lemma_parameters_on_link(ra, draw, subnet, p.valid_lifetime);
            self.lemma_parameters_slaac(ra, draw, p);
            self.heard_on_link(subnet, p.valid_lifetime).lemma_parameters_slaac(ra, draw, p);
        }
    }

    /// The parameters of an advertisement and its options do not touch each other.
    pub proof fn parameters_and_options_commute(
        self,
        ra: RouterAdvertisement,
        draw: Duration,
        src_ip: Ipv6Addr,
        options: Seq<NdpOption>,
    )
        ensures
            self.heard_parameters(ra, draw).heard_options(src_ip, options) == self.heard_options(
                src_ip,
                options,
            ).heard_parameters(ra, draw),
            self.heard_parameters(ra, draw).options_ok(src_ip, options) == self.options_ok(
                src_ip,
                options,
            ),
        decreases options.len(),
    {
        if options.len() > 0 {
            self.parameters_and_options_commute(ra, draw, src_ip, options.drop_last());
            self.heard_options(src_ip, options.drop_last()).lemma_parameters_and_option(
                ra,
                draw,
                src_ip,
                options.last(),
            );
        }
    }

    /// Every message that is received keeps the invariant.
    pub proof fn receive_keeps_inv(
        self,
        src_ip: Ipv6SourceAddr,
        packet: NdpPacket,
        draw: Duration,
    )
        requires
            self.inv(),
            self.clock_ok(),
            self.receivable(src_ip, packet),
            draw_ok(packet, draw),
        ensures
            self.receive(src_ip, packet, draw).inv(),
    {
        match packet {
            NdpPacket::RouterAdvertisement { message, options } => {
                if src_ip is Unicast && src_ip->Unicast_0.link_local() {
                    let src = src_ip->Unicast_0;
                    let v1 = self.count(Counter::RxRouterAdvertisement);
                    v1.lemma_actions(self);
                    if !self.is_router_device() {
                        v1.lemma_heard_router(src, message.router_lifetime);
                        let v2 = v1.heard_router(src, message.router_lifetime);
                        v2.lemma_heard_parameters(message, draw);
                        v2.parameters_and_options_commute(message, draw, src, options@);
                        let v3 = v2.heard_parameters(message, draw);
                        assert(v3.clock_ok());
                        v3.options_keep_inv(src, options@);
                        let v4 = v3.heard_options(src, options@);
                        let neighbors = with_router_flag(v4.neighbors, src, true);
                        v4.lemma_router_flag(NdpView { neighbors, ..v4 }, src, true);
                        v4.lemma_neighbors(neighbors);
                    }
                }
            },
            NdpPacket::NeighborSolicitation { target_address, options } => {
                if target_address.unicast() {
                    let next = self.receive_ns(src_ip, target_address, options@);
                    match find_addr(self.addrs, target_address) {
                        None => {},
                        Some(i) => {
                            if self.addrs[i].state is Tentative {
                                next.lemma_actions(self);
                            } else {
                                let v1 = self.count(Counter::RxNeighborSolicitation);
                                v1.lemma_actions(self);
                                match src_ip {
                                    Ipv6SourceAddr::Unicast(src) => {
                                        match link_option::<H>(options@, true) {
                                            Some(ll) => {
                                                v1.lemma_link_address(src, ll, false);
                                                let v2 = NdpView {
                                                    neighbors: with_link_address(
                                                        v1.neighbors,
                                                        src,
                                                        ll,
                                                        false,
                                                    ),
                                                    ..v1
                                                };
                                                next.lemma_actions(v2);
                                            },
                                            None => {
                                                next.lemma_actions(v1);
                                            },
                                        }
                                    },
                                    Ipv6SourceAddr::Unspecified => {
                                        next.lemma_actions(v1);
                                    },
                                }
                            }
                        },
                    }
                }
            },
            NdpPacket::NeighborAdvertisement { message, options } => {
                if src_ip is Unicast && message.target_address.unicast() {
                    let src = src_ip->Unicast_0;
                    match find_addr(self.addrs, message.target_address) {
                        Some(i) => {
                            if self.addrs[i].state is Tentative {
                                self.receive_na(src, message, options@).lemma_actions(self);
                            }
                        },
                        None => {
                            let v1 = self.count(Counter::RxNeighborAdvertisement);
                            v1.lemma_actions(self);
                            v1.lemma_neighbor_advertised(
                                src,
                                message,
                                link_option::<H>(options@, false),
                            );
                        },
                    }
                }
            },
            _ => {},
        }
    }

    /// An address that waits to be deprecated was autoconfigured.
    pub proof fn preferred_is_slaac(self, addr: Ipv6Addr)
        requires
            self.inv(),
            self.has_timer(InnerNdpTimerId::DeprecateSlaacAddress { addr }),
        ensures
            self.has_slaac(addr),
    {
        assert(self.has_preferred(addr));
        let j = choose|j: int|
            0 <= j < self.addrs.len() && (#[trigger] self.addrs[j]).addr_sub.addr == addr
                && self.addrs[j].config is Slaac && self.addrs[j].state !is Deprecated;
        assert(self.addrs[j].addr_sub.addr == addr);
    }

    /// A new configuration keeps the invariant.
    pub proof fn configuration_keeps_inv(self, limit: u8)
        requires
            self.inv(),
            limit <= MAX_RTR_SOLICITATIONS,
        ensures
            (NdpView { solicitation_limit: limit, ..self }).inv(),
    {
        let next = NdpView { solicitation_limit: limit, ..self };
        assert(forall|i: InnerNdpTimerId| #[trigger] next.has_timer(i) == self.has_timer(i));
        assert(next.same_addrs(self));
        next.lemma_same_addrs(self);
    }

    /// Every timer that fires keeps the invariant.
    pub proof fn fire_keeps_inv(self, inner: InnerNdpTimerId)
        requires
            self.inv(),
            self.fireable(inner),
        ensures
            self.fire(inner).inv(),
    {
        match inner {
            InnerNdpTimerId::LinkAddressResolution { neighbor_addr } => {
                self.lemma_resolution_timeout(neighbor_addr);
            },
            InnerNdpTimerId::RouterSolicitationTransmit => {
                self.lemma_do_solicitation();
            },
            InnerNdpTimerId::RouterInvalidation { ip } => {
                self.lemma_drop_router(ip);
            },
            InnerNdpTimerId::PrefixInvalidation { subnet } => {
                self.lemma_drop_prefix(subnet);
            },
            InnerNdpTimerId::DeprecateSlaacAddress { addr } => {
                self.preferred_is_slaac(addr);
                self.lemma_deprecate_slaac(addr);
            },
            InnerNdpTimerId::InvalidateSlaacAddress { addr } => {
                assert(self.has_slaac(addr));
                self.lemma_invalidate_slaac(addr);
            },
        }
    }
}

impl<H: LinkAddress> NdpView<H> {
    /// Once the preferred lifetime of an address was updated, the address is still there, unless it
    /// was tentative and deprecated.
    pub proof fn lemma_entry_kept(self, other: Self, i: int)
        requires
            other.inv(),
            0 <= i < other.addrs.len(),
            other.addrs[i].config is Slaac,
            self.addrs =~= other.addrs.update(i, self.addrs[i]),
            self.addrs[i].addr_sub == other.addrs[i].addr_sub,
            self.addrs[i].config == other.addrs[i].config,
        ensures
            self.addrs_inv(),
            self.has_slaac(other.addrs[i].addr_sub.addr),
    {
        assert forall|j: int, k: int|
            #![trigger self.addrs[j], self.addrs[k]]
            0 <= j < k < self.addrs.len() implies self.addrs[j].addr_sub.addr
            != self.addrs[k].addr_sub.addr by {
            assert(other.addrs[j].addr_sub.addr != other.addrs[k].addr_sub.addr);
        }
        assert forall|j: int| 0 <= j < self.addrs.len() implies (
        #[trigger] self.addrs[j]).addr_sub.wf() && self.addrs[j].addr_sub.addr.valid_unicast() by {
            assert(other.addrs[j].addr_sub.wf());
        }
        assert(self.addrs[i].addr_sub.addr == other.addrs[i].addr_sub.addr);
    }

    /// A new address is there.
    pub proof fn lemma_added(self, address: AddrSubnet, valid: u32)
        requires
            self.inv(),
            find_addr(self.addrs, address.addr) is None,
            address.wf(),
            address.addr.valid_unicast(),
        ensures
            self.add_slaac(address, valid).addrs_inv(),
            self.add_slaac(address, valid).has_slaac(address.addr),
    {
        let next = self.add_slaac(address, valid);
        let last = self.addrs.len() as int;
        lemma_find_addr(self.addrs, address.addr);
        assert(next.addrs[last].addr_sub == address);
        assert forall|j: int, k: int|
            #![trigger next.addrs[j], next.addrs[k]]
            0 <= j < k < next.addrs.len() implies next.addrs[j].addr_sub.addr
            != next.addrs[k].addr_sub.addr by {
            assert(next.addrs[j] == self.addrs[j]);
            if k < last {
                assert(next.addrs[k] == self.addrs[k]);
            }
        }
        assert forall|j: int| 0 <= j < next.addrs.len() implies (
        #[trigger] next.addrs[j]).addr_sub.wf() && next.addrs[j].addr_sub.addr.valid_unicast() by {
            if j < last {
                assert(next.addrs[j] == self.addrs[j]);
            }
        }
    }
}

} // verus!
