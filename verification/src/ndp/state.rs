//! What a device knows of its link.

use crate::ndp::config::NdpConfiguration;
use crate::net::addr::{AddrSubnet, Ipv6Addr, Subnet};
use crate::net::num::NonZeroU8;
use crate::net::table::{Id, Table};
use crate::net::time::{Duration, Instant};
use crate::random::draw_below;
use vstd::prelude::*;

verus! {

/// The default value for the base of the reachable time, in seconds (RFC 4861, section 10).
pub const REACHABLE_TIME_DEFAULT: u64 = 30;

/// The default value for the retransmission timer, in seconds (RFC 4861, section 10).
pub const RETRANS_TIMER_DEFAULT: u64 = 1;

/// The default hop limit of a device.
pub const HOP_LIMIT_DEFAULT: u8 = 64;

// -- Neighbors --

/// The states of a neighbor (RFC 4861, section 7.3.2).
#[derive(Clone, Copy, Debug, PartialEq, Eq, Structural)]
pub enum NeighborEntryState {
    /// The link address is being resolved; `transmit_counter` solicitations were sent.
    Incomplete { transmit_counter: u8 },
    /// The neighbor was confirmed to be reachable not long ago.
    Reachable,
    /// The link address is known, and nothing confirmed that the neighbor is reachable.
    Stale,
    /// A packet was sent to a stale neighbor not long ago.
    Delay,
    /// The neighbor is being asked whether it is reachable.
    Probe,
}

/// What is known of a neighbor.
#[derive(Clone, Copy, Debug, PartialEq, Eq)]
pub struct NeighborState<H> {
    pub is_router: bool,
    pub state: NeighborEntryState,
    pub link_address: Option<H>,
}

impl<H> NeighborState<H> {
    /// A neighbor of which nothing is known.
    pub open spec fn fresh(transmit_counter: u8) -> Self {
        NeighborState {
            is_router: false,
            state: NeighborEntryState::Incomplete { transmit_counter },
            link_address: None,
        }
    }

    /// A neighbor is incomplete just when its link address is not known.
    pub open spec fn wf(self) -> bool {
        self.state is Incomplete <==> self.link_address is None
    }

    /// Makes a neighbor of which nothing is known.
    pub fn new() -> (result: Self)
        ensures
            result == Self::fresh(0),
    {
        NeighborState {
            is_router: false,
            state: NeighborEntryState::Incomplete { transmit_counter: 0 },
            link_address: None,
        }
    }

    /// Is the link address being resolved?
    pub fn is_incomplete(&self) -> (result: bool)
        ensures
            result == (self.state is Incomplete),
    {
        match self.state {
            NeighborEntryState::Incomplete { transmit_counter: _ } => true,
            _ => false,
        }
    }

    /// Is the neighbor reachable?
    pub fn is_reachable(&self) -> (result: bool)
        ensures
            result == (self.state is Reachable),
    {
        match self.state {
            NeighborEntryState::Reachable => true,
            _ => false,
        }
    }
}

/// The neighbors of a device.
pub struct NeighborTable<H> {
    table: Table<Ipv6Addr, NeighborState<H>>,
}

/// A neighbor once its link address was learned: reachable if that is known, stale if the address
/// is a new one.
pub open spec fn with_address<H>(
    state: NeighborState<H>,
    address: H,
    is_reachable: bool,
) -> NeighborState<H> {
    NeighborState {
        is_router: state.is_router,
        state: if is_reachable {
            NeighborEntryState::Reachable
        } else if state.link_address != Some(address) {
            NeighborEntryState::Stale
        } else {
            state.state
        },
        link_address: Some(address),
    }
}

/// The neighbors once a link address was learned.
pub open spec fn with_link_address<H>(
    neighbors: Map<Ipv6Addr, NeighborState<H>>,
    neighbor: Ipv6Addr,
    address: H,
    is_reachable: bool,
) -> Map<Ipv6Addr, NeighborState<H>> {
    let state = if neighbors.dom().contains(neighbor) {
        neighbors[neighbor]
    } else {
        NeighborState::fresh(0)
    };
    neighbors.insert(neighbor, with_address(state, address, is_reachable))
}

/// Tests whether two link addresses, of which one may be unknown, are the same.
pub fn same_address<H: Id>(known: &Option<H>, address: &H) -> (result: bool)
    ensures
        result == (*known == Some(*address)),
{
    match known {
        Some(k) => k.same(address),
        None => false,
    }
}

impl<H: Id> NeighborTable<H> {
    pub closed spec fn view(&self) -> Map<Ipv6Addr, NeighborState<H>> {
        self.table@
    }

    /// Makes a table without neighbors.
    pub fn new() -> (result: Self)
        ensures
            result@ == Map::<Ipv6Addr, NeighborState<H>>::empty(),
    {
        NeighborTable { table: Table::new() }
    }

    /// Sets the link address of a neighbor. If `is_reachable` is true the neighbor becomes
    /// reachable; otherwise it becomes stale if the address is a new one.
    pub fn set_link_address(&mut self, neighbor: Ipv6Addr, address: H, is_reachable: bool)
        ensures
            final(self)@ == with_link_address(old(self)@, neighbor, address, is_reachable),
    {
        let mut state = match self.table.get(&neighbor) {
            Some(state) => state,
            None => NeighborState::new(),
        };
        if is_reachable {
            state.state = NeighborEntryState::Reachable;
        } else if !same_address(&state.link_address, &address) {
            state.state = NeighborEntryState::Stale;
        }
        state.link_address = Some(address);
        let _ = self.table.insert(neighbor, state);
    }

    /// Adds a neighbor to which one solicitation was sent.
    pub fn add_incomplete_neighbor_state(&mut self, neighbor: Ipv6Addr)
        ensures
            final(self)@ == old(self)@.insert(neighbor, NeighborState::fresh(1)),
    {
        let mut state = NeighborState::new();
        state.state = NeighborEntryState::Incomplete { transmit_counter: 1 };
        let _ = self.table.insert(neighbor, state);
    }

    /// The neighbor's state, if there is one.
    pub fn get_neighbor_state(&self, neighbor: &Ipv6Addr) -> (result: Option<NeighborState<H>>)
        ensures
            result == if self@.dom().contains(*neighbor) {
                Some(self@[*neighbor])
            } else {
                None
            },
    {
        self.table.get(neighbor)
    }

    /// Sets the neighbor's state.
    pub fn set_neighbor_state(&mut self, neighbor: Ipv6Addr, state: NeighborState<H>)
        ensures
            final(self)@ == old(self)@.insert(neighbor, state),
    {
        let _ = self.table.insert(neighbor, state);
    }

    /// Forgets the neighbor.
    pub fn delete_neighbor_state(&mut self, neighbor: &Ipv6Addr)
        ensures
            final(self)@ == old(self)@.remove(*neighbor),
    {
        let _ = self.table.remove(neighbor);
    }
}

// -- The state of neighbor discovery --

/// The state of neighbor discovery on a device.
pub struct NdpState<H> {
    pub neighbors: NeighborTable<H>,
    /// The default routers, by their link-local address.
    pub default_routers: Table<Ipv6Addr, ()>,
    /// The prefixes that are on the link.
    pub on_link_prefixes: Table<Subnet, ()>,
    /// How many router solicitations are still to be sent.
    pub router_solicitations_remaining: u8,
    /// The base for the reachable time.
    pub base_reachable_time: Duration,
    /// How long a neighbor counts as reachable once that was confirmed.
    pub reachable_time: Duration,
    /// The time between solicitations of a neighbor.
    pub retrans_timer: Duration,
    pub config: NdpConfiguration,
}

/// A reachable time is from half the base to one and a half times the base.
pub open spec fn in_reachable_range(base: Duration, reachable: Duration) -> bool {
    base.nanos / 2 <= reachable.nanos <= base.nanos + base.nanos / 2
}

impl<H: Id> NdpState<H> {
    pub open spec fn default_routers(self) -> Set<Ipv6Addr> {
        self.default_routers@.dom()
    }

    pub open spec fn on_link_prefixes(self) -> Set<Subnet> {
        self.on_link_prefixes@.dom()
    }

    pub open spec fn base_reachable_time(self) -> Duration {
        self.base_reachable_time
    }

    pub open spec fn reachable_time(self) -> Duration {
        self.reachable_time
    }

    pub open spec fn retrans_timer(self) -> Duration {
        self.retrans_timer
    }

    /// Everything that is not named is the same in both states.
    pub open spec fn same_but_times(self, other: Self) -> bool {
        &&& self.neighbors == other.neighbors
        &&& self.default_routers() == other.default_routers()
        &&& self.on_link_prefixes() == other.on_link_prefixes()
        &&& self.router_solicitations_remaining == other.router_solicitations_remaining
        &&& self.config == other.config
    }

    pub open spec fn same_times(self, other: Self) -> bool {
        &&& self.base_reachable_time() == other.base_reachable_time()
        &&& self.reachable_time() == other.reachable_time()
        &&& self.retrans_timer() == other.retrans_timer()
    }

    /// Makes the state of a device that knows nothing yet. The reachable time follows from `draw`.
    pub fn new_with_draw(config: NdpConfiguration, draw: Duration) -> (result: Self)
        requires
            draw.nanos < Duration::of_secs(REACHABLE_TIME_DEFAULT).nanos,
        ensures
            result.neighbors@ == Map::<Ipv6Addr, NeighborState<H>>::empty(),
            result.default_routers() == Set::<Ipv6Addr>::empty(),
            result.on_link_prefixes() == Set::<Subnet>::empty(),
            result.router_solicitations_remaining == 0,
            result.base_reachable_time() == Duration::of_secs(REACHABLE_TIME_DEFAULT),
            result.reachable_time().nanos == Duration::of_secs(REACHABLE_TIME_DEFAULT).nanos / 2
                + draw.nanos,
            result.retrans_timer() == Duration::of_secs(RETRANS_TIMER_DEFAULT),
            result.config == config,
    {
        let mut result = NdpState {
            neighbors: NeighborTable::new(),
            default_routers: Table::new(),
            on_link_prefixes: Table::new(),
            router_solicitations_remaining: 0,
            base_reachable_time: Duration::from_secs(REACHABLE_TIME_DEFAULT),
            reachable_time: Duration::from_secs(REACHABLE_TIME_DEFAULT),
            retrans_timer: Duration::from_secs(RETRANS_TIMER_DEFAULT),
            config,
        };
        result.recalculate_reachable_time_with_draw(draw);
        result
    }

    /// Makes the state of a device that knows nothing yet. The reachable time is random.
    pub fn new(config: NdpConfiguration) -> (result: Self)
        ensures
            result.neighbors@ == Map::<Ipv6Addr, NeighborState<H>>::empty(),
            result.default_routers() == Set::<Ipv6Addr>::empty(),
            result.on_link_prefixes() == Set::<Subnet>::empty(),
            result.router_solicitations_remaining == 0,
            result.base_reachable_time() == Duration::of_secs(REACHABLE_TIME_DEFAULT),
            in_reachable_range(result.base_reachable_time(), result.reachable_time()),
            result.retrans_timer() == Duration::of_secs(RETRANS_TIMER_DEFAULT),
            result.config == config,
    {
        let base = Duration::from_secs(REACHABLE_TIME_DEFAULT);
        let draw = Duration { nanos: draw_below(base.nanos) };
        NdpState::new_with_draw(config, draw)
    }

    /// Is this a default router?
    pub fn has_default_router(&self, ip: &Ipv6Addr) -> (result: bool)
        ensures
            result == self.default_routers().contains(*ip),
    {
        self.default_routers.contains(ip)
    }

    /// Adds a default router.
    pub fn add_default_router(&mut self, ip: Ipv6Addr)
        requires
            !old(self).default_routers().contains(ip),
        ensures
            final(self).default_routers() == old(self).default_routers().insert(ip),
            final(self).neighbors == old(self).neighbors,
            final(self).on_link_prefixes() == old(self).on_link_prefixes(),
            final(self).router_solicitations_remaining == old(self).router_solicitations_remaining,
            final(self).config == old(self).config,
            final(self).same_times(*old(self)),
    {
        let _ = self.default_routers.insert(ip, ());
    }

    /// Removes a default router.
    pub fn remove_default_router(&mut self, ip: &Ipv6Addr)
        requires
            old(self).default_routers().contains(*ip),
        ensures
            final(self).default_routers() == old(self).default_routers().remove(*ip),
            final(self).neighbors == old(self).neighbors,
            final(self).on_link_prefixes() == old(self).on_link_prefixes(),
            final(self).router_solicitations_remaining == old(self).router_solicitations_remaining,
            final(self).config == old(self).config,
            final(self).same_times(*old(self)),
    {
        let _ = self.default_routers.remove(ip);
    }

    /// Removes a default router, and its mark as a router from its neighbor entry (RFC 4861, section
    /// 6.3.5).
    pub fn invalidate_default_router(&mut self, ip: &Ipv6Addr)
        requires
            old(self).default_routers().contains(*ip),
        ensures
            final(self).default_routers() == old(self).default_routers().remove(*ip),
            final(self).neighbors@ == with_router_flag(old(self).neighbors@, *ip, false),
            final(self).on_link_prefixes() == old(self).on_link_prefixes(),
            final(self).router_solicitations_remaining == old(self).router_solicitations_remaining,
            final(self).config == old(self).config,
            final(self).same_times(*old(self)),
    {
        self.remove_default_router(ip);
        self.set_router_flag(ip, false);
    }

    /// Marks a neighbor as a router or as none, if there is an entry for it.
    pub fn set_router_flag(&mut self, ip: &Ipv6Addr, is_router: bool)
        ensures
            final(self).neighbors@ == with_router_flag(old(self).neighbors@, *ip, is_router),
            final(self).default_routers() == old(self).default_routers(),
            final(self).on_link_prefixes() == old(self).on_link_prefixes(),
            final(self).router_solicitations_remaining == old(self).router_solicitations_remaining,
            final(self).config == old(self).config,
            final(self).same_times(*old(self)),
    {
        if let Some(mut state) = self.neighbors.get_neighbor_state(ip) {
            state.is_router = is_router;
            self.neighbors.set_neighbor_state(*ip, state);
        }
    }

    /// Is the prefix known to be on the link?
    pub fn has_prefix(&self, subnet: &Subnet) -> (result: bool)
        ensures
            result == self.on_link_prefixes().contains(*subnet),
    {
        self.on_link_prefixes.contains(subnet)
    }

    /// Adds a prefix that is on the link.
    pub fn add_prefix(&mut self, subnet: Subnet)
        requires
            !old(self).on_link_prefixes().contains(subnet),
        ensures
            final(self).on_link_prefixes() == old(self).on_link_prefixes().insert(subnet),
            final(self).neighbors == old(self).neighbors,
            final(self).default_routers() == old(self).default_routers(),
            final(self).router_solicitations_remaining == old(self).router_solicitations_remaining,
            final(self).config == old(self).config,
            final(self).same_times(*old(self)),
    {
        let _ = self.on_link_prefixes.insert(subnet, ());
    }

    /// Removes a prefix that is no longer on the link (RFC 4861, section 6.3.5).
    pub fn invalidate_prefix(&mut self, subnet: Subnet)
        requires
            old(self).on_link_prefixes().contains(subnet),
        ensures
            final(self).on_link_prefixes() == old(self).on_link_prefixes().remove(subnet),
            final(self).neighbors == old(self).neighbors,
            final(self).default_routers() == old(self).default_routers(),
            final(self).router_solicitations_remaining == old(self).router_solicitations_remaining,
            final(self).config == old(self).config,
            final(self).same_times(*old(self)),
    {
        let _ = self.on_link_prefixes.remove(&subnet);
    }

    /// Sets the base for the reachable time. If it is a new one, the reachable time becomes half of
    /// it and `draw`.
    pub fn set_base_reachable_time_with_draw(&mut self, v: Duration, draw: Duration)
        requires
            v.nanos > 0,
            draw.nanos < v.nanos,
            v.nanos + v.nanos / 2 <= u128::MAX,
        ensures
            final(self).same_but_times(*old(self)),
            final(self).retrans_timer() == old(self).retrans_timer(),
            final(self).base_reachable_time() == v,
            final(self).reachable_time() == redrawn(
                old(self).base_reachable_time(),
                old(self).reachable_time(),
                v,
                draw,
            ),
    {
        if self.base_reachable_time == v {
            return ;
        }
        self.base_reachable_time = v;
        self.recalculate_reachable_time_with_draw(draw);
    }

    /// Sets the base for the reachable time. If it is a new one, the reachable time is drawn anew.
    pub fn set_base_reachable_time(&mut self, v: Duration)
        requires
            v.nanos > 0,
            v.nanos + v.nanos / 2 <= u128::MAX,
        ensures
            final(self).same_but_times(*old(self)),
            final(self).retrans_timer() == old(self).retrans_timer(),
            final(self).base_reachable_time() == v,
            old(self).base_reachable_time() == v ==> final(self).reachable_time() == old(self).reachable_time(),
            old(self).base_reachable_time() != v ==> in_reachable_range(
                v,
                final(self).reachable_time(),
            ),
    {
        let draw = Duration { nanos: draw_below(v.nanos) };
        self.set_base_reachable_time_with_draw(v, draw);
    }

    /// Makes the reachable time half the base and `draw`.
    pub fn recalculate_reachable_time_with_draw(&mut self, draw: Duration)
        requires
            draw.nanos < old(self).base_reachable_time().nanos,
            old(self).base_reachable_time().nanos + old(self).base_reachable_time().nanos / 2
                <= u128::MAX,
        ensures
            final(self).same_but_times(*old(self)),
            final(self).base_reachable_time() == old(self).base_reachable_time(),
            final(self).retrans_timer() == old(self).retrans_timer(),
            final(self).reachable_time().nanos == old(self).base_reachable_time().nanos / 2
                + draw.nanos,
            in_reachable_range(final(self).base_reachable_time(), final(self).reachable_time()),
    {
        let base = self.base_reachable_time;
        self.reachable_time = Duration { nanos: base.nanos / 2 + draw.nanos };
    }

    /// Draws the reachable time anew, from half the base to one and a half times the base (RFC 4861,
    /// section 6.3.2).
    pub fn recalculate_reachable_time(&mut self)
        requires
            old(self).base_reachable_time().nanos > 0,
            old(self).base_reachable_time().nanos + old(self).base_reachable_time().nanos / 2
                <= u128::MAX,
        ensures
            final(self).same_but_times(*old(self)),
            final(self).base_reachable_time() == old(self).base_reachable_time(),
            final(self).retrans_timer() == old(self).retrans_timer(),
            in_reachable_range(final(self).base_reachable_time(), final(self).reachable_time()),
    {
        let draw = Duration { nanos: draw_below(self.base_reachable_time.nanos) };
        self.recalculate_reachable_time_with_draw(draw);
    }

    /// Sets the time between solicitations of a neighbor.
    pub fn set_retrans_timer(&mut self, v: Duration)
        requires
            v.nanos > 0,
        ensures
            final(self).same_but_times(*old(self)),
            final(self).base_reachable_time() == old(self).base_reachable_time(),
            final(self).reachable_time() == old(self).reachable_time(),
            final(self).retrans_timer() == v,
    {
        self.retrans_timer = v;
    }

    /// The time between solicitations of a neighbor.
    pub fn get_retrans_timer(&self) -> (result: Duration)
        ensures
            result == self.retrans_timer(),
    {
        self.retrans_timer
    }

    /// The base for the reachable time.
    pub fn get_base_reachable_time(&self) -> (result: Duration)
        ensures
            result == self.base_reachable_time(),
    {
        self.base_reachable_time
    }

    /// How long a neighbor counts as reachable.
    pub fn get_reachable_time(&self) -> (result: Duration)
        ensures
            result == self.reachable_time(),
    {
        self.reachable_time
    }
}

/// The reachable time once the base was set to `base`.
pub open spec fn redrawn(
    old_base: Duration,
    old_reachable: Duration,
    base: Duration,
    draw: Duration,
) -> Duration {
    if old_base == base {
        old_reachable
    } else {
        Duration { nanos: (base.nanos / 2 + draw.nanos) as u128 }
    }
}

/// The neighbors once one was marked as a router or as none.
pub open spec fn with_router_flag<H>(
    neighbors: Map<Ipv6Addr, NeighborState<H>>,
    ip: Ipv6Addr,
    is_router: bool,
) -> Map<Ipv6Addr, NeighborState<H>> {
    if neighbors.dom().contains(ip) {
        neighbors.insert(ip, NeighborState { is_router, ..neighbors[ip] })
    } else {
        neighbors
    }
}

// -- The addresses of a device --

/// The states of an address.
#[derive(Clone, Copy, Debug, PartialEq, Eq, Structural)]
pub enum AddressState {
    /// The address is not known to be unique yet. `dad_transmits_remaining` solicitations are
    /// still to be sent.
    Tentative { dad_transmits_remaining: Option<NonZeroU8> },
    /// The address can be used.
    Assigned,
    /// The address should not be used for new connections.
    Deprecated,
}

impl AddressState {
    /// Is the address tentative?
    pub fn is_tentative(&self) -> (result: bool)
        ensures
            result == (self is Tentative),
    {
        match self {
            AddressState::Tentative { dad_transmits_remaining: _ } => true,
            _ => false,
        }
    }

    /// Is the address deprecated?
    pub fn is_deprecated(&self) -> (result: bool)
        ensures
            result == (self is Deprecated),
    {
        match self {
            AddressState::Deprecated => true,
            _ => false,
        }
    }
}

/// How an address came to be.
#[derive(Clone, Copy, Debug, PartialEq, Eq, Structural)]
pub enum AddrConfig {
    /// By stateless autoconfiguration; without an instant it is valid forever.
    Slaac { valid_until: Option<Instant> },
    /// By hand.
    Manual,
}

/// An address of a device.
#[derive(Clone, Copy, Debug, PartialEq, Eq, Structural)]
pub struct Ipv6AddressEntry {
    pub addr_sub: AddrSubnet,
    pub state: AddressState,
    pub config: AddrConfig,
}

/// Why an address was not added.
#[derive(Clone, Copy, Debug, PartialEq, Eq, Structural)]
pub enum AddressError {
    AlreadyExists,
}

} // verus!
