//! What addresses, subnets and times are, in bytes and in nanoseconds.

use crate::math::{lemma_pow2_adds, lemma_pow2_grows, pow2};
use crate::net::addr::{be_value, AddrSubnet, Ipv6Addr, Subnet};
use crate::net::time::{Duration, Instant};
use vstd::arithmetic::div_mod::{
    lemma_fundamental_div_mod, lemma_fundamental_div_mod_converse,
};
use vstd::prelude::*;

verus! {

// -- Times --

/// A second has a milliard nanoseconds and a millisecond a million, and times add up.
pub proof fn times_add_up(secs: u64, millis: u64, start: Instant, duration: Duration)
    ensures
        Duration::of_secs(secs).nanos == secs * 1_000_000_000,
        Duration::of_millis(millis).nanos == millis * 1_000_000,
        start.can_add(duration) <==> start.nanos + duration.nanos <= u128::MAX,
        start.can_add(duration) ==> start.after(duration).nanos == start.nanos + duration.nanos,
{
}

// -- Addresses --

/// Each byte can be read off the number that bytes spell.
pub proof fn bytes_are_digits(bytes: Seq<u8>, i: int)
    requires
        0 <= i < bytes.len(),
    ensures
        bytes[i] == (be_value(bytes) / pow2((8 * (bytes.len() - 1 - i)) as nat)) % 256,
    decreases bytes.len(),
{
    let front = bytes.drop_last();
    let v = be_value(front) as int;
    let b = bytes.last() as int;
    let n = be_value(bytes) as int;
    assert(n == v * 256 + b);
    if i == bytes.len() - 1 {
        assert(pow2(0) == 1);
        assert(n / 1 == n);
        assert(n % 256 == b);
    } else {
        bytes_are_digits(front, i);
        let m = (8 * (front.len() - 1 - i)) as nat;
        let p = pow2(m) as int;
        lemma_pow2_adds(m, 8);
        assert(pow2(8) == 256) by {
            reveal_with_fuel(pow2, 9);
        }
        lemma_pow2_grows(0, m);
        assert(pow2(m + 8) == p * 256);
        assert(m + 8 == 8 * (bytes.len() - 1 - i));
        assert(n / 256 == v);
        vstd::arithmetic::div_mod::lemma_div_denominator(n, 256, p);
        assert(256 * p == p * 256) by (nonlinear_arith);
    }
}

/// What the first two bytes of an address are, and whether all others are zero.
proof fn lemma_first_bytes(addr: Ipv6Addr, bytes: Seq<u8>)
    requires
        bytes.len() == 16,
        be_value(bytes) == addr.bits,
    ensures
        bytes[0] == addr.bits / 0x1_00_0000_0000_0000_0000_0000_0000_0000,
        bytes[1] == (addr.bits / 0x1_0000_0000_0000_0000_0000_0000_0000) % 256,
{
    bytes_are_digits(bytes, 0);
    bytes_are_digits(bytes, 1);
    assert(pow2(8) == 256 && pow2(16) == 0x1_0000 && pow2(40) == 0x100_0000_0000) by {
        reveal_with_fuel(pow2, 41);
    }
    lemma_pow2_adds(40, 40);
    lemma_pow2_adds(80, 40);
    lemma_pow2_adds(40, 16);
    lemma_pow2_adds(56, 56);
    assert(pow2(80) == 0x100_0000_0000 * 0x100_0000_0000);
    assert(pow2(56) == 0x100_0000_0000 * 0x1_0000);
    assert(pow2(112) == 0x1_0000_0000_0000_0000_0000_0000_0000);
    assert(pow2(120) == 0x1_00_0000_0000_0000_0000_0000_0000_0000);
    assert(addr.bits / 0x1_00_0000_0000_0000_0000_0000_0000_0000 < 256);
}

/// The kinds of addresses by their bytes. Multicast addresses start with `ff`, and the low half of
/// their second byte is their scope. Link-local addresses are those in `fe80::/10`, multicast
/// addresses with scope 2, and the loopback address. Addresses with global scope are multicast ones
/// with scope 14, and all others that are neither link-local nor in `fec0::/10`.
pub proof fn kinds_of_addresses(addr: Ipv6Addr, bytes: Seq<u8>)
    requires
        bytes.len() == 16,
        be_value(bytes) == addr.bits,
    ensures
        addr.multicast() <==> bytes[0] == 0xff,
        addr.unicast() <==> bytes[0] != 0xff && addr.bits != 0,
        addr.valid_unicast() <==> bytes[0] != 0xff && addr.bits != 0 && addr.bits != 1,
        addr.link_local() <==> (bytes[0] == 0xfe && bytes[1] / 64 == 2) || (bytes[0] == 0xff
            && bytes[1] % 16 == 2) || addr.bits == 1,
        addr.global() <==> if bytes[0] == 0xff {
            bytes[1] % 16 == 14
        } else {
            addr.bits != 1 && !(bytes[0] == 0xfe && (bytes[1] / 64 == 2 || bytes[1] / 64 == 3))
        },
{
    lemma_first_bytes(addr, bytes);
    let top = addr.bits / 0x40_0000_0000_0000_0000_0000_0000_0000;
    let two = addr.bits / 0x1_0000_0000_0000_0000_0000_0000_0000;
    assert(two == bytes[0] * 256 + bytes[1]);
    assert(top == two / 64);
    assert(top == bytes[0] * 4 + bytes[1] / 64);
}

/// The solicited-node address of an address has its last three bytes, after those of
/// `ff02::1:ff00:0`. It is a multicast address that never leaves the link.
pub proof fn solicited_node_addresses(addr: Ipv6Addr)
    ensures
        addr.solicited_node().bits / 0x100_0000 == 0xff02_0000_0000_0000_0000_0001_ff,
        addr.solicited_node().bits % 0x100_0000 == addr.bits % 0x100_0000,
        addr.solicited_node().multicast(),
        addr.solicited_node().link_local(),
{
}

// -- Subnets --

/// A subnet is proper just when its prefix is no longer than an address and no bit beyond it is
/// set. A proper subnet holds an address just when the first bits of the two agree, as many as the
/// prefix says.
pub proof fn subnets_hold_addresses(subnet: Subnet, addr: Ipv6Addr)
    requires
        subnet.prefix <= 128,
    ensures
        ({
            let unit = pow2((128 - subnet.prefix) as nat) as int;
            &&& subnet.wf() <==> subnet.network.bits as int % unit == 0
            &&& subnet.wf() ==> (subnet.holds(addr) <==> addr.bits as int / unit
                == subnet.network.bits as int / unit)
            &&& addr.masked(subnet.prefix).bits as int % unit == 0
            &&& addr.masked(subnet.prefix).bits as int / unit == addr.bits as int / unit
        }),
{
    let e = (128 - subnet.prefix) as nat;
    let unit = pow2(e) as int;
    lemma_pow2_grows(0, e);
    let a = addr.bits as int;
    let n = subnet.network.bits as int;
    lemma_fundamental_div_mod(a, unit);
    lemma_fundamental_div_mod(n, unit);
    assert(0 <= a % unit <= a) by (nonlinear_arith)
        requires
            unit > 0,
            a >= 0,
    ;
    assert(0 <= n % unit <= n) by (nonlinear_arith)
        requires
            unit > 0,
            n >= 0,
    ;
    let m = a - a % unit;
    assert(addr.masked(subnet.prefix).bits == m);
    assert(subnet.network.masked(subnet.prefix).bits == n - n % unit);
    assert(m == (a / unit) * unit + 0) by (nonlinear_arith)
        requires
            a == unit * (a / unit) + a % unit,
            m == a - a % unit,
    ;
    lemma_fundamental_div_mod_converse(m, unit, a / unit, 0);
    if subnet.wf() && a / unit == n / unit {
        assert(n == unit * (n / unit));
        assert(m == unit * (a / unit)) by (nonlinear_arith)
            requires
                m == (a / unit) * unit,
        ;
    }
}

/// A subnet with a prefix that is longer than an address is not proper. An address with its subnet
/// is proper just when it is unicast and the subnet is the one that holds it.
pub proof fn addresses_with_subnets(subnet: Subnet, pair: AddrSubnet)
    ensures
        subnet.prefix > 128 ==> !subnet.wf(),
        pair.wf() <==> pair.addr.unicast() && pair.subnet.prefix <= 128 && pair.subnet.wf()
            && pair.subnet.holds(pair.addr),
{
    if pair.subnet.prefix <= 128 {
        subnets_hold_addresses(pair.subnet, pair.addr);
        if pair.subnet.network == pair.addr.masked(pair.subnet.prefix) {
            assert(pair.subnet.wf());
        }
    }
}

} // verus!
