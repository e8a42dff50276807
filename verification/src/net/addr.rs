//! IPv6 addresses and subnets.

use crate::math::{lemma_pow2_128, lemma_pow2_adds, lemma_pow2_grows, pow2, power_of_two};
use vstd::prelude::*;

verus! {

/// The number that bytes spell, the most significant one first.
pub open spec fn be_value(bytes: Seq<u8>) -> nat
    decreases bytes.len(),
{
    if bytes.len() == 0 {
        0
    } else {
        be_value(bytes.drop_last()) * 256 + bytes.last() as nat
    }
}

/// Bytes spell a number that fits in as many bits as they have.
pub proof fn lemma_be_value_bound(bytes: Seq<u8>)
    ensures
        be_value(bytes) < pow2(8 * bytes.len()),
    decreases bytes.len(),
{
    if bytes.len() > 0 {
        lemma_be_value_bound(bytes.drop_last());
        let n = (8 * (bytes.len() - 1)) as nat;
        lemma_pow2_adds(n, 8);
        assert(pow2(8) == 256) by {
            reveal_with_fuel(pow2, 9);
        }
        let p = pow2(n) as int;
        let v = be_value(bytes.drop_last()) as int;
        assert(v * 256 + 255 < p * 256) by (nonlinear_arith)
            requires
                v < p,
        ;
    }
}

/// An IPv6 address, as the number that its bytes spell.
#[derive(Clone, Copy, Debug, PartialEq, Eq, Hash, Structural)]
pub struct Ipv6Addr {
    pub bits: u128,
}

/// The bits of the unspecified address, `::`.
pub const UNSPECIFIED_ADDRESS: u128 = 0;

/// The bits of the link-local multicast address of all nodes, `ff02::1`.
pub const ALL_NODES_LINK_LOCAL_MULTICAST_ADDRESS: u128 = 0xff02_0000_0000_0000_0000_0000_0000_0001;

/// The bits of the link-local multicast address of all routers, `ff02::2`.
pub const ALL_ROUTERS_LINK_LOCAL_MULTICAST_ADDRESS: u128 =
    0xff02_0000_0000_0000_0000_0000_0000_0002;

impl Ipv6Addr {
    /// A multicast address: `ff00::/8`.
    pub open spec fn multicast(self) -> bool {
        self.bits / 0x1_00_0000_0000_0000_0000_0000_0000_0000 == 0xff
    }

    /// A unicast address: neither multicast nor unspecified.
    pub open spec fn unicast(self) -> bool {
        !self.multicast() && self.bits != 0
    }

    /// A unicast address that can be bound to an interface.
    pub open spec fn valid_unicast(self) -> bool {
        self.unicast() && self.bits != 1
    }

    /// The scope field of a multicast address.
    pub open spec fn multicast_scope(self) -> u128 {
        (self.bits / 0x1_0000_0000_0000_0000_0000_0000_0000) % 16
    }

    /// A link-local address: in `fe80::/10`, multicast with link-local scope, or the loopback
    /// address.
    pub open spec fn link_local(self) -> bool {
        ||| self.bits / 0x40_0000_0000_0000_0000_0000_0000_0000 == 0x3fa
        ||| self.multicast() && self.multicast_scope() == 2
        ||| self.bits == 1
    }

    /// A site-local unicast address: in `fec0::/10`.
    pub open spec fn site_local(self) -> bool {
        self.bits / 0x40_0000_0000_0000_0000_0000_0000_0000 == 0x3fb
    }

    /// An address with global scope.
    pub open spec fn global(self) -> bool {
        if self.multicast() {
            self.multicast_scope() == 0xe
        } else {
            !self.link_local() && !self.site_local()
        }
    }

    /// The solicited-node multicast address: `ff02::1:ff00:0/104` with the last three bytes of the
    /// address.
    pub open spec fn solicited_node(self) -> Ipv6Addr {
        Ipv6Addr {
            bits: (0xff02_0000_0000_0000_0000_0001_ff00_0000 + self.bits % 0x100_0000) as u128,
        }
    }

    /// The address with all but the first `prefix` bits cleared.
    pub open spec fn masked(self, prefix: u8) -> Ipv6Addr {
        Ipv6Addr { bits: (self.bits - self.bits as nat % pow2((128 - prefix) as nat)) as u128 }
    }

    /// Makes an address from its bytes.
    pub fn from_bytes(bytes: [u8; 16]) -> (result: Ipv6Addr)
        ensures
            result.bits == be_value(bytes@),
    {
        let mut bits: u128 = 0;
        let mut i: usize = 0;
        while i < 16
            invariant
                i <= 16,
                bits == be_value(bytes@.take(i as int)),
            decreases 16 - i,
        {
            proof {
                let next = bytes@.take(i + 1);
                assert(next.drop_last() =~= bytes@.take(i as int));
                assert(next.last() == bytes@[i as int]);
                lemma_be_value_bound(next);
                lemma_pow2_grows(8 * next.len(), 128);
                lemma_pow2_128();
            }
            bits = bits * 256 + bytes[i] as u128;
            i = i + 1;
        }
        assert(bytes@.take(16) =~= bytes@);
        Ipv6Addr { bits }
    }

    /// The bytes of the address.
    pub fn ipv6_bytes(&self) -> (result: [u8; 16])
        ensures
            be_value(result@) == self.bits,
    {
        let mut result: [u8; 16] = [0;16];
        let mut rest: u128 = self.bits;
        let mut i: usize = 16;
        proof {
            assert(result@.skip(16) =~= Seq::empty());
            lemma_pow2_128();
            assert(rest * 1 == self.bits);
        }
        while i > 0
            invariant
                i <= 16,
                rest < pow2(8 * i as nat),
                rest * pow2((8 * (16 - i)) as nat) + be_value(result@.skip(i as int)) == self.bits,
            decreases i,
        {
            let ghost before = result@;
            let byte: u8 = (rest % 256) as u8;
            result[i - 1] = byte;
            proof {
                let tail0 = before.skip(i as int);
                let tail1 = result@.skip(i - 1);
                assert(tail1 =~= seq![byte] + tail0);
                lemma_be_value_first(byte, tail0);
                let n = (8 * (16 - i)) as nat;
                lemma_pow2_adds(n, 8);
                lemma_pow2_adds((8 * (i - 1)) as nat, 8);
                assert(pow2(8) == 256) by {
                    reveal_with_fuel(pow2, 9);
                }
                assert(n + 8 == 8 * (16 - (i - 1)));
                assert(8 * (i - 1) + 8 == 8 * i);
                let r = rest as int;
                let q = (rest / 256) as int;
                let p = pow2(n) as int;
                assert(r == q * 256 + byte as int);
                assert(r * p == q * (p * 256) + byte as int * p) by (nonlinear_arith)
                    requires
                        r == q * 256 + byte as int,
                ;
                let b = pow2((8 * (i - 1)) as nat) as int;
                assert(q < b) by (nonlinear_arith)
                    requires
                        r == q * 256 + byte as int,
                        r < b * 256,
                        byte as int >= 0,
                ;
            }
            rest = rest / 256;
            i = i - 1;
        }
        proof {
            assert(result@.skip(0) =~= result@);
            assert(pow2(0) == 1);
            assert(rest == 0);
            assert(rest * pow2(128) == 0);
        }
        result
    }

    /// Is this a multicast address?
    pub fn is_multicast(&self) -> (result: bool)
        ensures
            result == self.multicast(),
    {
        self.bits / 0x1_00_0000_0000_0000_0000_0000_0000_0000 == 0xff
    }

    /// Is this a unicast address?
    pub fn is_unicast(&self) -> (result: bool)
        ensures
            result == self.unicast(),
    {
        !self.is_multicast() && self.bits != 0
    }

    /// Is this a unicast address that can be bound to an interface?
    pub fn is_valid_unicast(&self) -> (result: bool)
        ensures
            result == self.valid_unicast(),
    {
        self.is_unicast() && self.bits != 1
    }

    /// Is this a link-local address?
    pub fn is_link_local(&self) -> (result: bool)
        ensures
            result == self.link_local(),
    {
        self.bits / 0x40_0000_0000_0000_0000_0000_0000_0000 == 0x3fa || (self.is_multicast() && (
        self.bits / 0x1_0000_0000_0000_0000_0000_0000_0000) % 16 == 2) || self.bits == 1
    }

    /// Is this an address with global scope?
    pub fn is_global(&self) -> (result: bool)
        ensures
            result == self.global(),
    {
        if self.is_multicast() {
            (self.bits / 0x1_0000_0000_0000_0000_0000_0000_0000) % 16 == 0xe
        } else {
            !self.is_link_local() && self.bits / 0x40_0000_0000_0000_0000_0000_0000_0000 != 0x3fb
        }
    }

    /// The solicited-node multicast address.
    pub fn to_solicited_node_address(&self) -> (result: Ipv6Addr)
        ensures
            result == self.solicited_node(),
    {
        Ipv6Addr { bits: 0xff02_0000_0000_0000_0000_0001_ff00_0000 + self.bits % 0x100_0000 }
    }

    /// Clears all but the first `prefix` bits.
    pub fn mask(&self, prefix: u8) -> (result: Ipv6Addr)
        requires
            prefix <= 128,
        ensures
            result == self.masked(prefix),
    {
        if prefix == 0 {
            proof {
                lemma_pow2_128();
                assert(self.bits as nat % pow2(128) == self.bits) by (nonlinear_arith)
                    requires
                        self.bits < pow2(128),
                ;
            }
            Ipv6Addr { bits: 0 }
        } else {
            let unit: u128 = power_of_two(128 - prefix);
            proof {
                lemma_pow2_grows(0, (128 - prefix) as nat);
            }
            assert(self.bits % unit <= self.bits) by (nonlinear_arith)
                requires
                    unit > 0,
            ;
            Ipv6Addr { bits: self.bits - self.bits % unit }
        }
    }
}

proof fn lemma_be_value_first(byte: u8, rest: Seq<u8>)
    ensures
        be_value(seq![byte] + rest) == byte * pow2(8 * rest.len()) + be_value(rest),
    decreases rest.len(),
{
    let all = seq![byte] + rest;
    if rest.len() == 0 {
        assert(all.drop_last() =~= Seq::empty());
        assert(be_value(all.drop_last()) == 0);
        assert(pow2(0) == 1);
        assert(byte * 1 == byte);
    } else {
        lemma_be_value_first(byte, rest.drop_last());
        assert(all.drop_last() =~= seq![byte] + rest.drop_last());
        let n = (8 * (rest.len() - 1)) as nat;
        lemma_pow2_adds(n, 8);
        assert(pow2(8) == 256) by {
            reveal_with_fuel(pow2, 9);
        }
        assert(n + 8 == 8 * rest.len());
        let b = byte as int;
        let p = pow2(n) as int;
        let v = be_value(rest.drop_last()) as int;
        assert((b * p + v) * 256 == b * (p * 256) + v * 256) by (nonlinear_arith);
    }
}

/// Where a packet comes from.
#[derive(Clone, Copy, Debug, PartialEq, Eq, Hash, Structural)]
pub enum Ipv6SourceAddr {
    Unicast(Ipv6Addr),
    Unspecified,
}

/// Why an address and a prefix length are no subnet.
#[derive(Clone, Copy, Debug, PartialEq, Eq, Structural)]
pub enum SubnetError {
    /// The prefix is longer than an address.
    PrefixTooLong,
    /// Bits beyond the prefix are set.
    HostBitsSet,
}

/// A network address with a prefix length.
#[derive(Clone, Copy, Debug, PartialEq, Eq, Hash, Structural)]
pub struct Subnet {
    pub network: Ipv6Addr,
    pub prefix: u8,
}

impl Subnet {
    /// No bit beyond the prefix is set.
    pub open spec fn wf(self) -> bool {
        self.prefix <= 128 && self.network == self.network.masked(self.prefix)
    }

    /// The address is in the subnet.
    pub open spec fn holds(self, addr: Ipv6Addr) -> bool {
        addr.masked(self.prefix) == self.network
    }

    /// Makes a subnet.
    pub fn new(network: Ipv6Addr, prefix: u8) -> (result: Result<Subnet, SubnetError>)
        ensures
            result is Err && result->Err_0 is PrefixTooLong <==> prefix > 128,
            result is Err && result->Err_0 is HostBitsSet <==> prefix <= 128 && network
                != network.masked(prefix),
            result is Ok ==> result->Ok_0 == (Subnet { network, prefix }) && result->Ok_0.wf(),
    {
        if prefix > 128 {
            Err(SubnetError::PrefixTooLong)
        } else if network != network.mask(prefix) {
            Err(SubnetError::HostBitsSet)
        } else {
            Ok(Subnet { network, prefix })
        }
    }

    /// Tests whether the address is in the subnet.
    pub fn contains(&self, addr: &Ipv6Addr) -> (result: bool)
        requires
            self.wf(),
        ensures
            result == self.holds(*addr),
    {
        addr.mask(self.prefix) == self.network
    }
}

/// Why an address and a prefix length are no address in a subnet.
#[derive(Clone, Copy, Debug, PartialEq, Eq, Structural)]
pub enum AddrSubnetError {
    /// The prefix is longer than an address.
    PrefixTooLong,
    /// The address is not unicast.
    NotUnicastInSubnet,
}

/// A unicast address together with its subnet.
#[derive(Clone, Copy, Debug, PartialEq, Eq, Hash, Structural)]
pub struct AddrSubnet {
    pub addr: Ipv6Addr,
    pub subnet: Subnet,
}

impl AddrSubnet {
    /// The address is unicast, and in the subnet.
    pub open spec fn wf(self) -> bool {
        &&& self.addr.unicast()
        &&& self.subnet.prefix <= 128
        &&& self.subnet.network == self.addr.masked(self.subnet.prefix)
    }

    /// Makes an address with its subnet.
    pub fn new(addr: Ipv6Addr, prefix: u8) -> (result: Result<AddrSubnet, AddrSubnetError>)
        ensures
            result is Err && result->Err_0 is PrefixTooLong <==> prefix > 128,
            result is Err && result->Err_0 is NotUnicastInSubnet <==> prefix <= 128
                && !addr.unicast(),
            result is Ok ==> result->Ok_0 == (AddrSubnet {
                addr,
                subnet: Subnet { network: addr.masked(prefix), prefix },
            }) && result->Ok_0.wf(),
    {
        if prefix > 128 {
            Err(AddrSubnetError::PrefixTooLong)
        } else if !addr.is_unicast() {
            Err(AddrSubnetError::NotUnicastInSubnet)
        } else {
            Ok(AddrSubnet { addr, subnet: Subnet { network: addr.mask(prefix), prefix } })
        }
    }
}

} // verus!
