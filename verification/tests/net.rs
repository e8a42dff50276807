//! Tests of addresses, tables and times.

use fuchsia::ndp::handler::{generate_global_address, updated_valid_until};
use fuchsia::net::addr::{
    AddrSubnet, AddrSubnetError, Ipv6Addr, Subnet, SubnetError,
    ALL_NODES_LINK_LOCAL_MULTICAST_ADDRESS, UNSPECIFIED_ADDRESS,
};
use fuchsia::net::link::{LinkAddress, Mac};
use fuchsia::net::num::NonZeroU8;
use fuchsia::net::table::Table;
use fuchsia::net::time::{Duration, Instant};

const GLOBAL: u128 = 0x2001_0db8_0000_0001_0203_04ff_fe05_0607;

fn addr(bits: u128) -> Ipv6Addr {
    Ipv6Addr { bits }
}

#[test]
fn bytes_of_an_address() {
    let bytes = [0x20, 1, 0x0d, 0xb8, 0, 0, 0, 1, 2, 3, 4, 0xff, 0xfe, 5, 6, 7];
    assert_eq!(Ipv6Addr::from_bytes(bytes), addr(GLOBAL));
    assert_eq!(addr(GLOBAL).ipv6_bytes(), bytes);
    assert_eq!(addr(UNSPECIFIED_ADDRESS).ipv6_bytes(), [0; 16]);
    assert_eq!(Ipv6Addr::from_bytes([255; 16]), addr(u128::MAX));
}

#[test]
fn kinds_of_addresses() {
    let link_local = addr(0xfe80_0000_0000_0000_0000_0000_0000_0001);
    let last_link_local = addr(0xfebf_ffff_ffff_ffff_ffff_ffff_ffff_ffff);
    let multicast = addr(ALL_NODES_LINK_LOCAL_MULTICAST_ADDRESS);
    let unspecified = addr(UNSPECIFIED_ADDRESS);

    assert!(multicast.is_multicast());
    assert!(!multicast.is_unicast());
    assert!(!multicast.is_global());
    assert!(!link_local.is_multicast());
    assert!(link_local.is_unicast());
    assert!(link_local.is_link_local());
    assert!(last_link_local.is_link_local());
    assert!(!addr(last_link_local.bits + 1).is_link_local());
    assert!(!link_local.is_global());
    assert!(addr(GLOBAL).is_unicast());
    assert!(addr(GLOBAL).is_valid_unicast());
    assert!(addr(GLOBAL).is_global());
    assert!(!addr(GLOBAL).is_link_local());
    assert!(!unspecified.is_valid_unicast());
    assert!(!addr(1).is_valid_unicast());
}

#[test]
fn solicited_node_address() {
    assert_eq!(
        addr(GLOBAL).to_solicited_node_address(),
        addr(0xff02_0000_0000_0000_0000_0001_ff05_0607)
    );
}

#[test]
fn masks() {
    assert_eq!(addr(GLOBAL).mask(0), addr(0));
    assert_eq!(addr(GLOBAL).mask(4), addr(0x2000_0000_0000_0000_0000_0000_0000_0000));
    assert_eq!(addr(GLOBAL).mask(64), addr(0x2001_0db8_0000_0001_0000_0000_0000_0000));
    assert_eq!(addr(GLOBAL).mask(128), addr(GLOBAL));
}

#[test]
fn subnets() {
    let network = addr(GLOBAL).mask(64);
    let subnet = Subnet::new(network, 64).unwrap();
    assert!(subnet.contains(&addr(GLOBAL)));
    assert!(!subnet.contains(&addr(1)));
    assert_eq!(Subnet::new(network, 129), Err(SubnetError::PrefixTooLong));
    assert_eq!(Subnet::new(addr(GLOBAL), 64), Err(SubnetError::HostBitsSet));
    assert!(Subnet::new(addr(0), 0).unwrap().contains(&addr(u128::MAX)));

    let addr_sub = AddrSubnet::new(addr(GLOBAL), 64).unwrap();
    assert_eq!(addr_sub.addr, addr(GLOBAL));
    assert_eq!(addr_sub.subnet, subnet);
    assert_eq!(AddrSubnet::new(addr(GLOBAL), 129), Err(AddrSubnetError::PrefixTooLong));
    assert_eq!(
        AddrSubnet::new(addr(ALL_NODES_LINK_LOCAL_MULTICAST_ADDRESS), 64),
        Err(AddrSubnetError::NotUnicastInSubnet)
    );
}

#[test]
fn global_address_from_a_prefix() {
    let subnet = Subnet::new(addr(GLOBAL).mask(64), 64).unwrap();
    let iid = [2, 3, 4, 0xff, 0xfe, 5, 6, 7];
    assert_eq!(
        generate_global_address(&subnet, &iid),
        AddrSubnet { addr: addr(GLOBAL), subnet }
    );
    let whole = Subnet::new(addr(GLOBAL), 128).unwrap();
    assert_eq!(generate_global_address(&whole, &[]).addr, addr(GLOBAL));
}

#[test]
fn two_hours_are_kept() {
    let now = Instant { nanos: 1_000 };
    let after = |secs| now.add_duration(Duration::from_secs(secs));
    let update =
        |old, advertised| updated_valid_until(now, after(old), Duration::from_secs(advertised));
    // More than two hours, or more than what remains, is taken.
    assert_eq!(update(100_000, 7_201), Some(after(7_201)));
    assert_eq!(update(10, 11), Some(after(11)));
    // Two hours remain at least.
    assert_eq!(update(100_000, 7_200), Some(after(7_200)));
    assert_eq!(update(100_000, 0), Some(after(7_200)));
    assert_eq!(update(7_201, 5), Some(after(7_200)));
    // What is less already stays.
    assert_eq!(update(7_200, 5), None);
    assert_eq!(update(10, 10), None);
    // The address should be gone already.
    assert_eq!(
        updated_valid_until(now, Instant { nanos: 999 }, Duration::from_secs(0)),
        Some(now)
    );
}

#[test]
fn link_addresses() {
    let mac = Mac::new([1, 2, 3, 4, 5, 6]);
    assert_eq!(Mac::from_bytes(&vec![1, 2, 3, 4, 5, 6]), mac);
    assert_eq!(Mac::from_bytes(&vec![1, 2, 3, 4, 5, 6, 7]), mac);
    assert_eq!(Mac::bytes_length(), 6);
}

#[test]
fn non_zero_numbers() {
    assert_eq!(NonZeroU8::new(0), None);
    assert_eq!(NonZeroU8::new(5).unwrap().get(), 5);
}

#[test]
fn table_holds_the_last_value() {
    let mut table: Table<Ipv6Addr, u8> = Table::new();
    assert_eq!(table.get(&addr(1)), None);
    assert_eq!(table.insert(addr(1), 10), None);
    assert_eq!(table.insert(addr(2), 20), None);
    assert_eq!(table.insert(addr(1), 11), Some(10));
    assert_eq!(table.len(), 2);
    assert!(table.contains(&addr(1)));
    assert_eq!(table.get(&addr(1)), Some(11));
    assert_eq!(table.remove(&addr(1)), Some(11));
    assert_eq!(table.remove(&addr(1)), None);
    assert_eq!(table.len(), 1);
    assert_eq!(table.at(0), (addr(2), 20));
}

#[test]
fn times() {
    let start = Instant { nanos: 5 };
    let end = start.add_duration(Duration::from_millis(2));
    assert_eq!(end, Instant { nanos: 2_000_005 });
    assert_eq!(end.duration_since(start), Duration { nanos: 2_000_000 });
    assert_eq!(Duration::from_secs(3), Duration { nanos: 3_000_000_000 });
}
