//! A device, as neighbor discovery sees it.

use crate::ndp::config::NdpConfiguration;
use crate::ndp::model::{
    find_addr, first_where, lemma_first_is, source_addr, usable_global, usable_link_local, NdpView,
};
use crate::ndp::packet::{NdpAction, INFINITE_LIFETIME};
use crate::ndp::safety::lemma_find_addr;
use crate::ndp::state::{
    AddrConfig, AddressError, AddressState, Ipv6AddressEntry, NdpState, NeighborState,
    HOP_LIMIT_DEFAULT, REACHABLE_TIME_DEFAULT, RETRANS_TIMER_DEFAULT,
};
use crate::ndp::timer::{InnerNdpTimerId, NdpTimerId};
use crate::net::addr::{AddrSubnet, Ipv6Addr, Subnet};
use crate::net::link::LinkAddress;
use crate::net::num::NonZeroU8;
use crate::net::table::Table;
use crate::net::time::{Duration, Instant};
use vstd::prelude::*;

verus! {

/// A device with its state, its timers, and the actions that the device layer has still to take.
pub struct NdpContext<H> {
    pub device_id: u64,
    pub link_addr: H,
    /// The interface identifier (RFC 4291, section 2.5.1).
    pub iid: [u8; 8],
    /// The node is a router.
    pub is_router: bool,
    /// The device routes packets, if the node is a router.
    pub routing_enabled: bool,
    /// The state of a new autoconfigured address.
    pub initial_state: AddressState,
    pub now: Instant,
    pub state: NdpState<H>,
    pub addrs: Vec<Ipv6AddressEntry>,
    pub default_hop_limit: NonZeroU8,
    pub timers: Table<NdpTimerId, Instant>,
    pub actions: Vec<NdpAction<H>>,
}

impl<H: LinkAddress> NdpContext<H> {
    /// The state of the device.
    pub open spec fn view(&self) -> NdpView<H> {
        NdpView {
            device_id: self.device_id,
            link_addr: self.link_addr,
            iid: self.iid@,
            is_router: self.is_router,
            routing_enabled: self.routing_enabled,
            initial_state: self.initial_state,
            now: self.now,
            neighbors: self.state.neighbors@,
            default_routers: self.state.default_routers(),
            on_link_prefixes: self.state.on_link_prefixes(),
            solicitations_remaining: self.state.router_solicitations_remaining,
            base_reachable_time: self.state.base_reachable_time(),
            reachable_time: self.state.reachable_time(),
            retrans_timer: self.state.retrans_timer(),
            solicitation_limit: self.state.config.limit(),
            addrs: self.addrs@,
            default_hop_limit: self.default_hop_limit@,
            timers: self.timers@,
            actions: self.actions@,
        }
    }

    /// Makes a device that knows nothing of its link.
    pub fn new(
        device_id: u64,
        link_addr: H,
        iid: [u8; 8],
        is_router: bool,
        routing_enabled: bool,
        initial_state: AddressState,
        config: NdpConfiguration,
        now: Instant,
    ) -> (result: Self)
        requires
            initial_state !is Deprecated,
        ensures
            result@.inv(),
            result.device_id == device_id,
            result.link_addr == link_addr,
            result.iid == iid,
            result.is_router == is_router,
            result.routing_enabled == routing_enabled,
            result.initial_state == initial_state,
            result.now == now,
            result.state.config == config,
            result@.neighbors == Map::<Ipv6Addr, NeighborState<H>>::empty(),
            result@.default_routers == Set::<Ipv6Addr>::empty(),
            result@.on_link_prefixes == Set::<Subnet>::empty(),
            result@.solicitations_remaining == 0,
            result@.base_reachable_time == Duration::of_secs(REACHABLE_TIME_DEFAULT),
            result@.retrans_timer == Duration::of_secs(RETRANS_TIMER_DEFAULT),
            result@.addrs == Seq::<Ipv6AddressEntry>::empty(),
            result@.default_hop_limit == HOP_LIMIT_DEFAULT,
            result@.timers == Map::<NdpTimerId, Instant>::empty(),
            result@.actions == Seq::<NdpAction<H>>::empty(),
    {
        let _ = config.get_max_router_solicitations();
        let default_hop_limit = NonZeroU8::new(HOP_LIMIT_DEFAULT).unwrap();
        NdpContext {
            device_id,
            link_addr,
            iid,
            is_router,
            routing_enabled,
            initial_state,
            now,
            state: NdpState::new(config),
            addrs: Vec::new(),
            default_hop_limit,
            timers: Table::new(),
            actions: Vec::new(),
        }
    }

    /// Does the device route packets?
    pub fn is_router_device(&self) -> (result: bool)
        ensures
            result == self@.is_router_device(),
    {
        self.is_router && self.routing_enabled
    }

    /// Can the clock express every instant at which a timer may have to fire?
    pub fn is_clock_ok(&self) -> (result: bool)
        ensures
            result == self@.clock_ok(),
    {
        let longest = Duration::from_secs(INFINITE_LIFETIME as u64);
        let retrans_timer = self.state.get_retrans_timer();
        longest.nanos <= u128::MAX - self.now.nanos && retrans_timer.nanos <= u128::MAX
            - self.now.nanos
    }

    /// The place of an address of the device.
    pub fn find_addr(&self, addr: &Ipv6Addr) -> (result: Option<usize>)
        ensures
            match result {
                Some(i) => find_addr(self.addrs@, *addr) == Some(i as int) && i < self.addrs@.len(),
                None => find_addr(self.addrs@, *addr) is None,
            },
    {
        let ghost p = |e: Ipv6AddressEntry| e.addr_sub.addr == *addr;
        let mut i: usize = 0;
        while i < self.addrs.len()
            invariant
                i <= self.addrs@.len(),
                forall|j: int| 0 <= j < i ==> !p(self.addrs@[j]),
                p == (|e: Ipv6AddressEntry| e.addr_sub.addr == *addr),
            decreases self.addrs@.len() - i,
        {
            if self.addrs[i].addr_sub.addr == *addr {
                proof {
                    lemma_first_is(self.addrs@, p, i as int);
                }
                return Some(i);
            }
            i = i + 1;
        }
        proof {
            lemma_first_is(self.addrs@, p, i as int);
        }
        None
    }

    /// A non-tentative global address, if there is one; or else a non-tentative link-local address,
    /// if there is one.
    pub fn get_non_tentative_global_or_link_local_addr(&self) -> (result: Option<Ipv6Addr>)
        ensures
            result == source_addr(self@.addrs),
    {
        let ghost g = |e: Ipv6AddressEntry| usable_global(e);
        let ghost l = |e: Ipv6AddressEntry| usable_link_local(e);
        let mut i: usize = 0;
        while i < self.addrs.len()
            invariant
                i <= self.addrs@.len(),
                g == (|e: Ipv6AddressEntry| usable_global(e)),
                forall|j: int| 0 <= j < i ==> !g(self.addrs@[j]),
            decreases self.addrs@.len() - i,
        {
            let entry = self.addrs[i];
            if !entry.state.is_tentative() && entry.addr_sub.addr.is_global() {
                proof {
                    lemma_first_is(self.addrs@, g, i as int);
                }
                return Some(entry.addr_sub.addr);
            }
            i = i + 1;
        }
        proof {
            lemma_first_is(self.addrs@, g, i as int);
        }
        let mut k: usize = 0;
        while k < self.addrs.len()
            invariant
                k <= self.addrs@.len(),
                l == (|e: Ipv6AddressEntry| usable_link_local(e)),
                first_where(self.addrs@, |e: Ipv6AddressEntry| usable_global(e)) is None,
                forall|j: int| 0 <= j < k ==> !l(self.addrs@[j]),
            decreases self.addrs@.len() - k,
        {
            let entry = self.addrs[k];
            if !entry.state.is_tentative() && entry.addr_sub.addr.is_link_local() {
                proof {
                    lemma_first_is(self.addrs@, l, k as int);
                }
                return Some(entry.addr_sub.addr);
            }
            k = k + 1;
        }
        proof {
            lemma_first_is(self.addrs@, l, k as int);
        }
        None
    }

    /// Sets a timer of the device to fire after the given time. Returns when it was to fire before.
    pub fn schedule_timer(&mut self, after: Duration, inner: InnerNdpTimerId) -> (result: Option<
        Instant,
    >)
        requires
            old(self).now.can_add(after),
        ensures
            final(self)@ == old(self)@.schedule(inner, after),
            result is Some <==> old(self)@.has_timer(inner),
            result is Some ==> result->0 == old(self)@.timers[old(self)@.timer(inner)],
    {
        let at = self.now.add_duration(after);
        self.schedule_timer_instant(at, inner)
    }

    /// Sets a timer of the device to fire at the given instant. Returns when it was to fire before.
    pub fn schedule_timer_instant(&mut self, at: Instant, inner: InnerNdpTimerId) -> (result:
        Option<Instant>)
        ensures
            final(self)@ == old(self)@.schedule_at(inner, at),
            result is Some <==> old(self)@.has_timer(inner),
            result is Some ==> result->0 == old(self)@.timers[old(self)@.timer(inner)],
    {
        let id = NdpTimerId { device_id: self.device_id, inner };
        self.timers.insert(id, at)
    }

    /// Cancels a timer of the device. Returns when it was to fire.
    pub fn cancel_timer(&mut self, inner: InnerNdpTimerId) -> (result: Option<Instant>)
        ensures
            final(self)@ == old(self)@.cancel(inner),
            result is Some <==> old(self)@.has_timer(inner),
            result is Some ==> result->0 == old(self)@.timers[old(self)@.timer(inner)],
    {
        let id = NdpTimerId { device_id: self.device_id, inner };
        self.timers.remove(&id)
    }

    /// Cancels every timer of a device.
    pub fn cancel_timers_of(&mut self, device_id: u64)
        ensures
            final(self)@ == old(self)@.without_timers_of(device_id),
    {
        let ghost before = self.timers@;
        let ghost view0 = self@;
        let mut i: usize = 0;
        while i < self.timers.len()
            invariant
                i <= self.timers.count(),
                self@ == (NdpView { timers: self.timers@, ..view0 }),
                before == view0.timers,
                forall|id: NdpTimerId| #[trigger]
                    self.timers@.dom().contains(id) ==> before.dom().contains(id)
                        && self.timers@[id] == before[id],
                forall|id: NdpTimerId| #[trigger]
                    before.dom().contains(id) && id.device_id != device_id
                        ==> self.timers@.dom().contains(id),
                forall|j: int| 0 <= j < i ==> (#[trigger] self.timers.entry(j)).0.device_id
                    != device_id,
            decreases self.timers.count(), self.timers.count() - i,
        {
            let entry = self.timers.at(i);
            if entry.0.get_device_id() == device_id {
                let _ = self.timers.remove(&entry.0);
                i = 0;
            } else {
                i = i + 1;
            }
        }
        proof {
            self.timers.lemma_places();
            assert forall|id: NdpTimerId| #[trigger]
                self.timers@.dom().contains(id) implies id.device_id != device_id by {
                let j = choose|j: int|
                    0 <= j < self.timers.count() && (#[trigger] self.timers.entry(j)).0 == id;
                assert(self.timers.entry(j).0.device_id != device_id);
            }
            assert(self@.timers =~= view0.without_timers_of(device_id).timers);
        }
    }

    /// Tells the device layer to do something.
    pub fn act(&mut self, action: NdpAction<H>)
        ensures
            final(self)@ == old(self)@.act(action),
    {
        self.actions.push(action);
    }

    /// Adds an address that was configured by stateless autoconfiguration. Fails if the device has
    /// the address.
    pub fn add_slaac_addr_sub(&mut self, addr_sub: AddrSubnet, valid_until: Instant) -> (result:
        Result<(), AddressError>)
        ensures
            result is Err <==> find_addr(old(self)@.addrs, addr_sub.addr) is Some,
            result is Err ==> *final(self) == *old(self),
            result is Ok ==> final(self)@ == (NdpView {
                addrs: old(self)@.addrs.push(
                    Ipv6AddressEntry {
                        addr_sub,
                        state: old(self).initial_state,
                        config: AddrConfig::Slaac { valid_until: Some(valid_until) },
                    },
                ),
                ..old(self)@
            }).act(NdpAction::AddressAdded { addr: addr_sub.addr, prefix: addr_sub.subnet.prefix }),
    {
        if self.find_addr(&addr_sub.addr).is_some() {
            return Err(AddressError::AlreadyExists);
        }
        self.addrs.push(
            Ipv6AddressEntry {
                addr_sub,
                state: self.initial_state,
                config: AddrConfig::Slaac { valid_until: Some(valid_until) },
            },
        );
        self.act(
            NdpAction::AddressAdded { addr: addr_sub.addr, prefix: addr_sub.subnet.prefix },
        );
        Ok(())
    }

    /// Deprecates an address that was configured by stateless autoconfiguration. If the address is
    /// tentative it is invalidated: nothing uses it yet, and nothing new should.
    pub fn deprecate_slaac_addr(&mut self, addr: &Ipv6Addr)
        requires
            old(self)@.addrs_inv(),
            old(self)@.has_slaac(*addr),
        ensures
            final(self)@ == old(self)@.deprecate_slaac(*addr),
    {
        proof {
            lemma_find_addr(self.addrs@, *addr);
        }
        let i: usize = self.find_addr(addr).unwrap();
        let mut entry = self.addrs[i];
        if entry.state.is_tentative() {
            self.invalidate_slaac_addr(addr);
        } else {
            entry.state = AddressState::Deprecated;
            self.addrs.set(i, entry);
            assert(self@ =~= old(self)@.deprecate_slaac(*addr));
        }
    }

    /// Removes an address that was configured by stateless autoconfiguration, with its timers.
    pub fn invalidate_slaac_addr(&mut self, addr: &Ipv6Addr)
        requires
            old(self)@.addrs_inv(),
            old(self)@.has_slaac(*addr),
        ensures
            final(self)@ == old(self)@.invalidate_slaac(*addr),
    {
        proof {
            lemma_find_addr(self.addrs@, *addr);
        }
        let i: usize = self.find_addr(addr).unwrap();
        let _ = self.addrs.remove(i);
        let _ = self.cancel_timer(InnerNdpTimerId::DeprecateSlaacAddress { addr: *addr });
        let _ = self.cancel_timer(InnerNdpTimerId::InvalidateSlaacAddress { addr: *addr });
        self.act(NdpAction::AddressRemoved { addr: *addr });
        assert(self@ =~= old(self)@.invalidate_slaac(*addr));
    }

    /// Sets the instant until which an address that was configured by stateless autoconfiguration is
    /// valid.
    pub fn update_slaac_addr_valid_until(&mut self, addr: &Ipv6Addr, valid_until: Instant)
        requires
            old(self)@.addrs_inv(),
            old(self)@.has_slaac(*addr),
            addr.global(),
        ensures
            final(self)@ == old(self)@.with_valid_until(*addr, valid_until),
    {
        proof {
            lemma_find_addr(self.addrs@, *addr);
        }
        let i: usize = self.find_addr(addr).unwrap();
        let mut entry = self.addrs[i];
        entry.config = AddrConfig::Slaac { valid_until: Some(valid_until) };
        self.addrs.set(i, entry);
    }
}

} // verus!
