//! What becomes of the addresses of a device when a prefix is advertised.

use crate::math::{lemma_pow2_of_words, pow2};
use crate::ndp::model::{
    draw_ok, find_addr, find_slaac, global_address, lemma_first_is, lemma_first_where,
    new_valid_until, NdpView,
};
use crate::ndp::packet::{Counter, NdpAction, NdpOption, NdpPacket, PrefixInformation};
use crate::ndp::safety::{lemma_address_in_subnet, lemma_find_addr, lemma_find_slaac};
use crate::ndp::state::{AddrConfig, AddressState, Ipv6AddressEntry};
use crate::ndp::timer::{InnerNdpTimerId, NdpTimerId};
use crate::net::addr::{
    be_value, lemma_be_value_bound, AddrSubnet, Ipv6Addr, Ipv6SourceAddr, Subnet,
};
use crate::net::laws::subnets_hold_addresses;
use crate::net::link::LinkAddress;
use crate::net::time::{Duration, Instant};
use vstd::arithmetic::div_mod::{
    lemma_fundamental_div_mod, lemma_fundamental_div_mod_converse,
};
use vstd::prelude::*;

verus! {

/// The first autoconfigured global address of a subnet is found.
proof fn lemma_found(addrs: Seq<Ipv6AddressEntry>, subnet: Subnet, i: int)
    requires
        0 <= i < addrs.len(),
        addrs[i].addr_sub.addr.global(),
        addrs[i].addr_sub.subnet == subnet,
        addrs[i].config is Slaac,
        forall|j: int|
            0 <= j < i ==> !((#[trigger] addrs[j]).addr_sub.addr.global()
                && addrs[j].addr_sub.subnet == subnet && addrs[j].config is Slaac),
    ensures
        find_slaac(addrs, subnet) == Some(i),
{
    let p = |e: Ipv6AddressEntry|
        e.addr_sub.addr.global() && e.addr_sub.subnet == subnet && e.config is Slaac;
    assert(p(addrs[i]));
    assert forall|j: int| 0 <= j < i implies !p(addrs[j]) by {
        assert(!(addrs[j].addr_sub.addr.global() && addrs[j].addr_sub.subnet == subnet
            && addrs[j].config is Slaac));
    }
    lemma_first_is(addrs, p, i);
}

/// A prefix is advertised for which the device has an autoconfigured address, and that address
/// stays. The address itself stays what it is. With a preferred lifetime, a deprecated address can
/// be used again, any other state stays as it is (a tentative address stays tentative), and the
/// address will be deprecated when that lifetime has passed; without one, the address is
/// deprecated. It becomes invalid when the advertised lifetime has passed if that is more than two
/// hours or more than is left; otherwise not sooner than in two hours, unless less than that is
/// left already, and then nothing changes. No other address, timer or anything else changes.
pub proof fn address_is_refreshed<H: LinkAddress>(
    v: NdpView<H>,
    p: PrefixInformation,
    i: int,
    until: Instant,
)
    requires
        v.inv(),
        v.clock_ok(),
        (Subnet { network: p.prefix, prefix: p.prefix_length }).wf(),
        p.preferred_lifetime <= p.valid_lifetime,
        0 <= i < v.addrs.len(),
        v.addrs[i].addr_sub.addr.global(),
        v.addrs[i].addr_sub.subnet == (Subnet { network: p.prefix, prefix: p.prefix_length }),
        v.addrs[i].config == (AddrConfig::Slaac { valid_until: Some(until) }),
        forall|j: int|
            0 <= j < i ==> !((#[trigger] v.addrs[j]).addr_sub.addr.global()
                && v.addrs[j].addr_sub.subnet == v.addrs[i].addr_sub.subnet
                && v.addrs[j].config is Slaac),
        p.preferred_lifetime > 0 || v.addrs[i].state !is Tentative,
    ensures
        ({
            let addr = v.addrs[i].addr_sub.addr;
            let deprecation = NdpTimerId {
                device_id: v.device_id,
                inner: InnerNdpTimerId::DeprecateSlaacAddress { addr },
            };
            let invalidation = NdpTimerId {
                device_id: v.device_id,
                inner: InnerNdpTimerId::InvalidateSlaacAddress { addr },
            };
            let valid = p.valid_lifetime * 1_000_000_000;
            let left = until.nanos - v.now.nanos;
            let new_until = Instant {
                nanos: if valid > 7_200_000_000_000 || valid > left {
                    (v.now.nanos + valid) as u128
                } else if left <= 7_200_000_000_000 {
                    until.nanos
                } else {
                    (v.now.nanos + 7_200_000_000_000) as u128
                },
            };
            let timers = if p.preferred_lifetime > 0 {
                v.timers.insert(
                    deprecation,
                    v.now.after(Duration::of_secs(p.preferred_lifetime as u64)),
                )
            } else {
                v.timers.remove(deprecation)
            };
            v.slaac_update(p) == NdpView {
                addrs: v.addrs.update(
                    i,
                    Ipv6AddressEntry {
                        addr_sub: v.addrs[i].addr_sub,
                        state: if p.preferred_lifetime == 0 {
                            AddressState::Deprecated
                        } else if v.addrs[i].state is Deprecated {
                            AddressState::Assigned
                        } else {
                            v.addrs[i].state
                        },
                        config: AddrConfig::Slaac { valid_until: Some(new_until) },
                    },
                ),
                timers: timers.insert(invalidation, new_until),
                ..v
            }
        }),
{
    let subnet = Subnet { network: p.prefix, prefix: p.prefix_length };
    let addr = v.addrs[i].addr_sub.addr;
    lemma_found(v.addrs, subnet, i);
    lemma_find_addr(v.addrs, addr);
    assert(v.addrs[i].config is Slaac);
    let deprecation = v.timer(InnerNdpTimerId::DeprecateSlaacAddress { addr });
    let invalidation = v.timer(InnerNdpTimerId::InvalidateSlaacAddress { addr });
    let mid = v.update_preferred(i, p.preferred_lifetime);
    assert(mid.addrs =~= v.addrs.update(i, mid.addrs[i]));
    mid.lemma_entry_kept(v, i);
    lemma_find_addr(mid.addrs, addr);
    assert(mid.addrs[i].addr_sub.addr == addr);
    assert(find_addr(mid.addrs, addr) == Some(i));
    let next = v.slaac_update(p);
    assert(v.timers[invalidation] == until);
    if v.addrs[i].state is Deprecated {
        assert(!v.has_timer(InnerNdpTimerId::DeprecateSlaacAddress { addr })) by {
            if v.has_timer(InnerNdpTimerId::DeprecateSlaacAddress { addr }) {
                assert(v.has_preferred(addr));
                let k = choose|k: int|
                    0 <= k < v.addrs.len() && (#[trigger] v.addrs[k]).addr_sub.addr == addr
                        && v.addrs[k].config is Slaac && v.addrs[k].state !is Deprecated;
                assert(k == i);
            }
        }
        assert(v.timers.remove(deprecation) =~= v.timers);
    }
    let timers = if p.preferred_lifetime > 0 {
        v.timers.insert(
            deprecation,
            v.now.after(Duration::of_secs(p.preferred_lifetime as u64)),
        )
    } else {
        v.timers.remove(deprecation)
    };
    assert(mid.timers =~= timers);
    assert(timers.insert(invalidation, until) =~= timers);
    assert(next.addrs =~= v.addrs.update(i, next.addrs[i]));
    let two_hours = Duration::of_secs(7200);
    let valid_for = Duration::of_secs(p.valid_lifetime as u64);
    assert(two_hours.nanos == 7_200_000_000_000);
    assert(valid_for.nanos == p.valid_lifetime * 1_000_000_000);
    assert(next.addrs[i].config == AddrConfig::Slaac {
        valid_until: Some(
            match new_valid_until(v.now, until, valid_for) {
                Some(u) => u,
                None => until,
            },
        ),
    });
}

/// A prefix without a preferred lifetime is advertised while the address of the device for it is
/// tentative, and has not to change when the address becomes invalid: the address goes, with its
/// timers, and the device layer is told.
pub proof fn tentative_address_is_withdrawn<H: LinkAddress>(
    v: NdpView<H>,
    p: PrefixInformation,
    i: int,
    until: Instant,
)
    requires
        v.inv(),
        v.clock_ok(),
        (Subnet { network: p.prefix, prefix: p.prefix_length }).wf(),
        p.preferred_lifetime == 0,
        0 <= i < v.addrs.len(),
        v.addrs[i].addr_sub.addr.global(),
        v.addrs[i].addr_sub.subnet == (Subnet { network: p.prefix, prefix: p.prefix_length }),
        v.addrs[i].config == (AddrConfig::Slaac { valid_until: Some(until) }),
        forall|j: int|
            0 <= j < i ==> !((#[trigger] v.addrs[j]).addr_sub.addr.global()
                && v.addrs[j].addr_sub.subnet == v.addrs[i].addr_sub.subnet
                && v.addrs[j].config is Slaac),
        v.addrs[i].state is Tentative,
        p.valid_lifetime * 1_000_000_000 <= until.nanos - v.now.nanos <= 7_200_000_000_000,
    ensures
        ({
            let addr = v.addrs[i].addr_sub.addr;
            v.slaac_ok(p) && v.slaac_update(p) == NdpView {
                addrs: v.addrs.remove(i),
                timers: v.timers.remove(
                    NdpTimerId {
                        device_id: v.device_id,
                        inner: InnerNdpTimerId::DeprecateSlaacAddress { addr },
                    },
                ).remove(
                    NdpTimerId {
                        device_id: v.device_id,
                        inner: InnerNdpTimerId::InvalidateSlaacAddress { addr },
                    },
                ),
                actions: v.actions.push(NdpAction::AddressRemoved { addr }),
                ..v
            }
        }),
{
    let addr = v.addrs[i].addr_sub.addr;
    lemma_found(v.addrs, v.addrs[i].addr_sub.subnet, i);
    lemma_find_addr(v.addrs, addr);
    let d = v.timer(InnerNdpTimerId::DeprecateSlaacAddress { addr });
    let n = v.timer(InnerNdpTimerId::InvalidateSlaacAddress { addr });
    assert(v.timers.remove(d).remove(n).remove(d) =~= v.timers.remove(d).remove(n));
}

/// When an address becomes invalid is updated in nanoseconds as it is in words: to the advertised
/// lifetime if that is more than two hours or more than is left, and otherwise to two hours if more
/// than that is left.
pub proof fn valid_lifetime_is_updated(now: Instant, old_until: Instant, valid_for: Duration)
    requires
        now.nanos + valid_for.nanos <= u128::MAX,
        now.nanos + 7_200_000_000_000 <= u128::MAX,
    ensures
        ({
            let left = old_until.nanos - now.nanos;
            let taken = valid_for.nanos > 7_200_000_000_000 || valid_for.nanos > left;
            let result = new_valid_until(now, old_until, valid_for);
            &&& taken ==> result is Some && result->0.nanos == now.nanos + valid_for.nanos
            &&& !taken && left > 7_200_000_000_000 ==> result is Some && result->0.nanos == now.nanos
                + 7_200_000_000_000
            &&& !taken && left <= 7_200_000_000_000 ==> result is None
        }),
{
    assert(Duration::of_secs(7200).nanos == 7_200_000_000_000);
}

/// An advertised prefix can be processed, unless it deprecates a tentative address and would then
/// have to change when that becomes invalid.
pub proof fn prefix_can_be_processed<H: LinkAddress>(v: NdpView<H>, p: PrefixInformation)
    requires
        v.inv(),
        v.clock_ok(),
    ensures
        p.preferred_lifetime > 0 ==> v.slaac_ok(p),
        (forall|i: int|
            0 <= i < v.addrs.len() && (#[trigger] v.addrs[i]).addr_sub.subnet == (Subnet {
                network: p.prefix,
                prefix: p.prefix_length,
            }) && v.addrs[i].config is Slaac ==> v.addrs[i].state !is Tentative) ==> v.slaac_ok(p),
        p.prefix.unicast() ==> v.formable(p),
{
    lemma_find_slaac(v.addrs, Subnet { network: p.prefix, prefix: p.prefix_length });
    if p.prefix.unicast() {
        v.lemma_formable(p);
    }
}

/// A prefix that deprecates a tentative address can be processed just when it has not to change
/// when that becomes invalid: it is not valid for longer than is left, and no more than two hours
/// are.
pub proof fn tentative_address_can_be_withdrawn<H: LinkAddress>(
    v: NdpView<H>,
    p: PrefixInformation,
    i: int,
    until: Instant,
)
    requires
        v.clock_ok(),
        p.preferred_lifetime == 0,
        0 <= i < v.addrs.len(),
        v.addrs[i].addr_sub.addr.global(),
        v.addrs[i].addr_sub.subnet == (Subnet { network: p.prefix, prefix: p.prefix_length }),
        v.addrs[i].config == (AddrConfig::Slaac { valid_until: Some(until) }),
        v.addrs[i].state is Tentative,
        forall|j: int|
            0 <= j < i ==> !((#[trigger] v.addrs[j]).addr_sub.addr.global()
                && v.addrs[j].addr_sub.subnet == v.addrs[i].addr_sub.subnet
                && v.addrs[j].config is Slaac),
    ensures
        v.slaac_ok(p) <==> p.valid_lifetime * 1_000_000_000 <= until.nanos - v.now.nanos
            <= 7_200_000_000_000,
{
    assert(Duration::of_secs(7200).nanos == 7_200_000_000_000);
    assert(Duration::of_secs(p.valid_lifetime as u64).nanos == p.valid_lifetime * 1_000_000_000);
    lemma_found(v.addrs, v.addrs[i].addr_sub.subnet, i);
}

/// A prefix is not used for autoconfiguration if its preferred lifetime exceeds its valid lifetime,
/// or if it is no proper subnet. Without an address for the prefix, it is not used either if it is
/// not valid, if it does not have 64 bits, or if the device has the address that it would form.
pub proof fn prefix_is_not_used<H: LinkAddress>(v: NdpView<H>, p: PrefixInformation)
    requires
        v.inv(),
    ensures
        ({
            let subnet = Subnet { network: p.prefix, prefix: p.prefix_length };
            let has_address = exists|i: int|
                0 <= i < v.addrs.len() && (#[trigger] v.addrs[i]).addr_sub.addr.global()
                    && v.addrs[i].addr_sub.subnet == subnet && v.addrs[i].config is Slaac;
            let formed = exists|i: int|
                0 <= i < v.addrs.len() && (#[trigger] v.addrs[i]).addr_sub.addr.bits
                    == p.prefix.bits + be_value(v.iid);
            &&& p.preferred_lifetime > p.valid_lifetime || !subnet.wf() ==> v.slaac_update(p) == v
            &&& !has_address && (p.valid_lifetime == 0 || p.prefix_length != 64 || formed)
                ==> v.slaac_update(p) == v
        }),
{
    let subnet = Subnet { network: p.prefix, prefix: p.prefix_length };
    lemma_find_slaac(v.addrs, subnet);
    let addr = global_address(subnet, v.iid).addr;
    lemma_find_addr(v.addrs, addr);
    if subnet.wf() && p.prefix_length == 64 {
        lemma_address_in_subnet(subnet, v.iid);
        if exists|i: int|
            0 <= i < v.addrs.len() && (#[trigger] v.addrs[i]).addr_sub.addr.bits == p.prefix.bits
                + be_value(v.iid) {
            let i = choose|i: int|
                0 <= i < v.addrs.len() && (#[trigger] v.addrs[i]).addr_sub.addr.bits
                    == p.prefix.bits + be_value(v.iid);
            assert(v.addrs[i].addr_sub.addr == addr);
        }
    }
}

/// A prefix gives the device a new address: the 64 bits of the prefix followed by the interface
/// identifier, in the state that new addresses have. It is valid for as long as advertised and
/// preferred for as long as advertised. Without a preferred lifetime it is deprecated at once; if
/// that would be while it is tentative, it goes at once.
pub proof fn prefix_forms_address<H: LinkAddress>(
    v: NdpView<H>,
    p: PrefixInformation,
    addr: Ipv6Addr,
)
    requires
        v.inv(),
        v.clock_ok(),
        (Subnet { network: p.prefix, prefix: p.prefix_length }).wf(),
        p.prefix_length == 64,
        p.preferred_lifetime <= p.valid_lifetime,
        p.valid_lifetime > 0,
        addr.bits / 0x1_0000_0000_0000_0000 == p.prefix.bits / 0x1_0000_0000_0000_0000,
        addr.bits % 0x1_0000_0000_0000_0000 == be_value(v.iid),
        forall|i: int|
            0 <= i < v.addrs.len() ==> !((#[trigger] v.addrs[i]).addr_sub.addr.global()
                && v.addrs[i].addr_sub.subnet == (Subnet {
                network: p.prefix,
                prefix: p.prefix_length,
            }) && v.addrs[i].config is Slaac),
        forall|i: int| 0 <= i < v.addrs.len() ==> (#[trigger] v.addrs[i]).addr_sub.addr != addr,
    ensures
        ({
            let deprecation = NdpTimerId {
                device_id: v.device_id,
                inner: InnerNdpTimerId::DeprecateSlaacAddress { addr },
            };
            let invalidation = NdpTimerId {
                device_id: v.device_id,
                inner: InnerNdpTimerId::InvalidateSlaacAddress { addr },
            };
            let until = v.now.after(Duration::of_secs(p.valid_lifetime as u64));
            let entry = Ipv6AddressEntry {
                addr_sub: AddrSubnet {
                    addr,
                    subnet: Subnet { network: p.prefix, prefix: p.prefix_length },
                },
                state: v.initial_state,
                config: AddrConfig::Slaac { valid_until: Some(until) },
            };
            let told = v.actions.push(
                NdpAction::AddressAdded { addr, prefix: p.prefix_length },
            );
            v.slaac_update(p) == if p.preferred_lifetime > 0 {
                NdpView {
                    addrs: v.addrs.push(entry),
                    timers: v.timers.insert(invalidation, until).insert(
                        deprecation,
                        v.now.after(Duration::of_secs(p.preferred_lifetime as u64)),
                    ),
                    actions: told,
                    ..v
                }
            } else if v.initial_state is Tentative {
                NdpView { actions: told.push(NdpAction::AddressRemoved { addr }), ..v }
            } else {
                NdpView {
                    addrs: v.addrs.push(
                        Ipv6AddressEntry { state: AddressState::Deprecated, ..entry },
                    ),
                    timers: v.timers.insert(invalidation, until),
                    actions: told,
                    ..v
                }
            }
        }),
{
    let subnet = Subnet { network: p.prefix, prefix: p.prefix_length };
    let address = global_address(subnet, v.iid);
    lemma_address_in_subnet(subnet, v.iid);
    lemma_be_value_bound(v.iid);
    lemma_pow2_of_words();
    let unit: int = 0x1_0000_0000_0000_0000;
    assert(p.prefix.bits as int % unit == 0) by {
        assert(pow2(64) == unit);
        assert(p.prefix.bits as int % unit <= p.prefix.bits);
    }
    assert(address.addr.bits == addr.bits);
    lemma_find_slaac(v.addrs, subnet);
    lemma_find_addr(v.addrs, addr);
    let d = v.timer(InnerNdpTimerId::DeprecateSlaacAddress { addr });
    let n = v.timer(InnerNdpTimerId::InvalidateSlaacAddress { addr });
    assert(!v.has_timer(InnerNdpTimerId::InvalidateSlaacAddress { addr }));
    assert(!v.has_timer(InnerNdpTimerId::DeprecateSlaacAddress { addr }));
    if p.preferred_lifetime == 0 {
        let added = v.add_slaac(address, p.valid_lifetime);
        let last = v.addrs.len() as int;
        assert(added.addrs[last].addr_sub.addr == addr);
        let cond = |e: Ipv6AddressEntry| e.addr_sub.addr == addr;
        assert forall|j: int| 0 <= j < last implies !cond(added.addrs[j]) by {
            assert(added.addrs[j] == v.addrs[j]);
        }
        lemma_first_is(added.addrs, cond, last);
        assert(find_addr(added.addrs, addr) == Some(last));
        let next = v.slaac_update(p);
        let until = v.now.after(Duration::of_secs(p.valid_lifetime as u64));
        if v.initial_state is Tentative {
            assert(added.addrs.remove(last) =~= v.addrs);
            assert(next.timers =~= v.timers);
        } else {
            assert(next.timers =~= v.timers.insert(n, until));
            assert(next.addrs =~= v.addrs.push(next.addrs[last]));
        }
    }
}

/// When the timer of an autoconfigured address fires, the address is deprecated, or gone if it is
/// tentative or was to become invalid. No other address changes, and nothing else does but the
/// address's timers.
pub proof fn address_times_out<H: LinkAddress>(v: NdpView<H>, addr: Ipv6Addr, i: int)
    requires
        v.inv(),
        0 <= i < v.addrs.len(),
        v.addrs[i].addr_sub.addr == addr,
    ensures
        ({
            let deprecation = NdpTimerId {
                device_id: v.device_id,
                inner: InnerNdpTimerId::DeprecateSlaacAddress { addr },
            };
            let invalidation = NdpTimerId {
                device_id: v.device_id,
                inner: InnerNdpTimerId::InvalidateSlaacAddress { addr },
            };
            let gone = NdpView {
                addrs: v.addrs.remove(i),
                timers: v.timers.remove(deprecation).remove(invalidation),
                actions: v.actions.push(NdpAction::AddressRemoved { addr }),
                ..v
            };
            &&& v.fire(InnerNdpTimerId::InvalidateSlaacAddress { addr }) == gone
            &&& v.addrs[i].state is Tentative ==> v.fire(
                InnerNdpTimerId::DeprecateSlaacAddress { addr },
            ) == gone
            &&& v.addrs[i].state !is Tentative ==> v.fire(
                InnerNdpTimerId::DeprecateSlaacAddress { addr },
            ) == (NdpView {
                addrs: v.addrs.update(
                    i,
                    Ipv6AddressEntry { state: AddressState::Deprecated, ..v.addrs[i] },
                ),
                timers: v.timers.remove(deprecation),
                ..v
            })
        }),
{
    lemma_find_addr(v.addrs, addr);
    let d = v.timer(InnerNdpTimerId::DeprecateSlaacAddress { addr });
    let n = v.timer(InnerNdpTimerId::InvalidateSlaacAddress { addr });
    assert(v.timers.remove(n).remove(d).remove(n) =~= v.timers.remove(d).remove(n));
    assert(v.timers.remove(d).remove(d).remove(n) =~= v.timers.remove(d).remove(n));
}

// -- Tentative addresses --

/// An advertised prefix does not make a tentative address usable: if the address is still there, it
/// is in the same state. Every usable address was usable before, or is new and of a kind that is
/// usable at once.
pub proof fn refresh_keeps_tentative<H: LinkAddress>(
    v: NdpView<H>,
    p: PrefixInformation,
    next: NdpView<H>,
    j: int,
)
    requires
        v.inv(),
        v.clock_ok(),
        v.slaac_ok(p),
        next == v.slaac_update(p),
        0 <= j < next.addrs.len(),
    ensures
        forall|i: int|
            0 <= i < v.addrs.len() && (#[trigger] v.addrs[i]).addr_sub.addr
                == next.addrs[j].addr_sub.addr && v.addrs[i].state is Tentative
                ==> next.addrs[j].state == v.addrs[i].state,
        next.addrs[j].state !is Tentative ==> v.initial_state !is Tentative || exists|i: int|
            0 <= i < v.addrs.len() && (#[trigger] v.addrs[i]).addr_sub == next.addrs[j].addr_sub
                && v.addrs[i].state !is Tentative,
        next.initial_state == v.initial_state,
{
    let subnet = Subnet { network: p.prefix, prefix: p.prefix_length };
    lemma_find_slaac(v.addrs, subnet);
    lemma_first_slaac(v.addrs, subnet);
    if p.preferred_lifetime <= p.valid_lifetime && subnet.wf() {
        match find_slaac(v.addrs, subnet) {
            Some(i) => {
                assert(v.addrs[i].config is Slaac);
                let until = v.addrs[i].config->valid_until->0;
                assert(v.addrs[i].config == AddrConfig::Slaac { valid_until: Some(until) });
                if p.preferred_lifetime == 0 && v.addrs[i].state is Tentative {
                    lemma_find_addr(v.addrs, v.addrs[i].addr_sub.addr);
                    let mid = v.update_preferred(i, p.preferred_lifetime);
                    assert(next == mid);
                    assert(next.addrs == v.addrs.remove(i));
                    let k = if j < i {
                        j
                    } else {
                        j + 1
                    };
                    assert(next.addrs[j] == v.addrs[k]);
                } else {
                    address_is_refreshed(v, p, i, until);
                    assert(next.addrs[j].addr_sub == v.addrs[j].addr_sub);
                }
            },
            None => {
                let address = global_address(subnet, v.iid);
                let addr = address.addr;
                lemma_find_addr(v.addrs, addr);
                if p.valid_lifetime != 0 && subnet.prefix == 64 && find_addr(v.addrs, addr) is None {
                    lemma_address_in_subnet(subnet, v.iid);
                    lemma_be_value_bound(v.iid);
                    lemma_pow2_of_words();
                    let unit: int = 0x1_0000_0000_0000_0000;
                    assert(p.prefix.bits as int % unit == 0) by {
                        assert(pow2(64) == unit);
                        assert(p.prefix.bits as int % unit <= p.prefix.bits);
                    }
                    prefix_forms_address(v, p, addr);
                    if j < v.addrs.len() {
                        assert(next.addrs[j] == v.addrs[j]);
                    }
                }
            },
        }
    }
    assert forall|i: int|
        0 <= i < v.addrs.len() && (#[trigger] v.addrs[i]).addr_sub.addr
            == next.addrs[j].addr_sub.addr && v.addrs[i].state is Tentative implies next.addrs[j].state
        == v.addrs[i].state by {}
}

/// No autoconfigured global address of the subnet comes before the one that is found.
proof fn lemma_first_slaac(addrs: Seq<Ipv6AddressEntry>, subnet: Subnet)
    ensures
        find_slaac(addrs, subnet) matches Some(i) ==> forall|j: int|
            0 <= j < i ==> !((#[trigger] addrs[j]).addr_sub.addr.global()
                && addrs[j].addr_sub.subnet == subnet && addrs[j].config is Slaac),
{
    let p = |e: Ipv6AddressEntry|
        e.addr_sub.addr.global() && e.addr_sub.subnet == subnet && e.config is Slaac;
    lemma_first_where(addrs, p);
    if let Some(i) = find_slaac(addrs, subnet) {
        assert forall|j: int| 0 <= j < i implies !((#[trigger] addrs[j]).addr_sub.addr.global()
            && addrs[j].addr_sub.subnet == subnet && addrs[j].config is Slaac) by {
            assert(!p(addrs[j]));
        }
    }
}

proof fn lemma_options_keep_tentative<H: LinkAddress>(
    v: NdpView<H>,
    src: Ipv6Addr,
    options: Seq<NdpOption>,
    j: int,
)
    requires
        v.inv(),
        v.clock_ok(),
        v.options_ok(src, options),
        v.initial_state is Tentative,
        0 <= j < v.heard_options(src, options).addrs.len(),
        v.heard_options(src, options).addrs[j].state !is Tentative,
    ensures
        exists|i: int|
            0 <= i < v.addrs.len() && (#[trigger] v.addrs[i]).addr_sub == v.heard_options(
                src,
                options,
            ).addrs[j].addr_sub && v.addrs[i].state !is Tentative,
    decreases options.len(),
{
    if options.len() > 0 {
        let rest = options.drop_last();
        let mid = v.heard_options(src, rest);
        let next = v.heard_options(src, options);
        v.options_keep_inv(src, rest);
        lemma_initial_state(v, src, rest);
        let mut k = j;
        if let NdpOption::PrefixInformation(p) = options.last() {
            let subnet = Subnet { network: p.prefix, prefix: p.prefix_length };
            let on_link = mid.heard_on_link(subnet, p.valid_lifetime);
            mid.lemma_heard_on_link(subnet, p.valid_lifetime);
            if p.autonomous_address_configuration_flag && subnet.wf() && p.prefix.unicast()
                && !p.prefix.link_local() {
                let before = if p.on_link_flag {
                    on_link
                } else {
                    mid
                };
                assert(before.addrs == mid.addrs && before.now == mid.now);
                refresh_keeps_tentative(before, p, next, j);
                k = choose|i: int|
                    0 <= i < mid.addrs.len() && (#[trigger] mid.addrs[i]).addr_sub
                        == next.addrs[j].addr_sub && mid.addrs[i].state !is Tentative;
            }
        }
        lemma_options_keep_tentative(v, src, rest, k);
    } else {
        assert(v.heard_options(src, options).addrs[j] == v.addrs[j]);
    }
}

proof fn lemma_slaac_initial_state<H: LinkAddress>(v: NdpView<H>, p: PrefixInformation)
    ensures
        v.slaac_update(p).initial_state == v.initial_state,
{
}

proof fn lemma_initial_state<H: LinkAddress>(v: NdpView<H>, src: Ipv6Addr, options: Seq<NdpOption>)
    ensures
        v.heard_options(src, options).initial_state == v.initial_state,
    decreases options.len(),
{
    if options.len() > 0 {
        lemma_initial_state(v, src, options.drop_last());
        let mid = v.heard_options(src, options.drop_last());
        if let NdpOption::PrefixInformation(p) = options.last() {
            let subnet = Subnet { network: p.prefix, prefix: p.prefix_length };
            lemma_slaac_initial_state(mid, p);
            lemma_slaac_initial_state(mid.heard_on_link(subnet, p.valid_lifetime), p);
        }
    }
}

/// Where new addresses are tentative, no message makes an address usable: every usable address of
/// the device was there and usable before the message came.
pub proof fn messages_make_no_address_usable<H: LinkAddress>(
    v: NdpView<H>,
    src_ip: Ipv6SourceAddr,
    packet: NdpPacket,
    draw: Duration,
    j: int,
)
    requires
        v.inv(),
        v.clock_ok(),
        v.receivable(src_ip, packet),
        draw_ok(packet, draw),
        v.initial_state is Tentative,
        0 <= j < v.receive(src_ip, packet, draw).addrs.len(),
        v.receive(src_ip, packet, draw).addrs[j].state !is Tentative,
    ensures
        exists|i: int|
            0 <= i < v.addrs.len() && (#[trigger] v.addrs[i]).addr_sub == v.receive(
                src_ip,
                packet,
                draw,
            ).addrs[j].addr_sub && v.addrs[i].state !is Tentative,
{
    let next = v.receive(src_ip, packet, draw);
    if packet is RouterAdvertisement && src_ip is Unicast && src_ip->Unicast_0.link_local()
        && !v.is_router_device() {
        if let NdpPacket::RouterAdvertisement { message, options } = packet {
            let src = src_ip->Unicast_0;
            let v1 = v.count(Counter::RxRouterAdvertisement);
            v1.lemma_actions(v);
            v1.lemma_heard_router(src, message.router_lifetime);
            let v2 = v1.heard_router(src, message.router_lifetime);
            v2.lemma_heard_parameters(message, draw);
            v2.parameters_and_options_commute(message, draw, src, options@);
            let v3 = v2.heard_parameters(message, draw);
            assert(v3.addrs == v.addrs && v3.initial_state == v.initial_state);
            lemma_options_keep_tentative(v3, src, options@, j);
        }
    } else {
        assert(next.addrs == v.addrs);
        assert(v.addrs[j].addr_sub == next.addrs[j].addr_sub);
    }
}

// -- Parts --

/// The parts of an update, each on its own: an address that is deprecated, one that goes, and one
/// that becomes invalid at another instant.
pub proof fn entries_change_alone<H: LinkAddress>(
    v: NdpView<H>,
    addr: Ipv6Addr,
    i: int,
    until: Instant,
)
    requires
        v.inv(),
        0 <= i < v.addrs.len(),
        v.addrs[i].addr_sub.addr == addr,
    ensures
        ({
            let deprecation = NdpTimerId {
                device_id: v.device_id,
                inner: InnerNdpTimerId::DeprecateSlaacAddress { addr },
            };
            let invalidation = NdpTimerId {
                device_id: v.device_id,
                inner: InnerNdpTimerId::InvalidateSlaacAddress { addr },
            };
            let gone = NdpView {
                addrs: v.addrs.remove(i),
                timers: v.timers.remove(deprecation).remove(invalidation),
                actions: v.actions.push(NdpAction::AddressRemoved { addr }),
                ..v
            };
            &&& v.invalidate_slaac(addr) == gone
            &&& v.deprecate_slaac(addr) == if v.addrs[i].state is Tentative {
                gone
            } else {
                NdpView {
                    addrs: v.addrs.update(
                        i,
                        Ipv6AddressEntry { state: AddressState::Deprecated, ..v.addrs[i] },
                    ),
                    ..v
                }
            }
            &&& v.with_valid_until(addr, until) == NdpView {
                addrs: v.addrs.update(
                    i,
                    Ipv6AddressEntry {
                        config: AddrConfig::Slaac { valid_until: Some(until) },
                        ..v.addrs[i]
                    },
                ),
                ..v
            }
        }),
{
    lemma_find_addr(v.addrs, addr);
}

/// A prefix and an interface identifier that fills the rest form an address: its first bits are
/// those of the prefix, and its last ones those of the identifier.
pub proof fn address_is_prefix_and_identifier(prefix: Subnet, iid: Seq<u8>)
    requires
        prefix.wf(),
        8 * iid.len() == 128 - prefix.prefix,
    ensures
        ({
            let unit = pow2(8 * iid.len()) as int;
            let address = global_address(prefix, iid);
            &&& address.subnet == prefix
            &&& address.addr.bits as int / unit == prefix.network.bits as int / unit
            &&& address.addr.bits as int % unit == be_value(iid)
        }),
{
    let e = 8 * iid.len();
    let unit = pow2(e) as int;
    let n = prefix.network.bits as int;
    let x = be_value(iid) as int;
    lemma_address_in_subnet(prefix, iid);
    lemma_be_value_bound(iid);
    subnets_hold_addresses(prefix, prefix.network);
    assert((128 - prefix.prefix) as nat == e);
    lemma_fundamental_div_mod(n, unit);
    assert(n + x == (n / unit) * unit + x) by (nonlinear_arith)
        requires
            n == unit * (n / unit),
    ;
    lemma_fundamental_div_mod_converse(n + x, unit, n / unit, x);
}

} // verus!
